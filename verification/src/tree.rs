//! The snapshot tree: one entry per filesystem object, with the verified
//! constructors that the capture loop uses, the flattening used by the diff
//! engine, and the PDF-candidate scan of the dispatcher.

use vstd::prelude::*;

verus! {

/// One filesystem object captured in a snapshot tree. `children` is present
/// exactly on directories; directories carry size `0`.
pub struct FsNode {
    pub path: String,
    pub name: String,
    pub is_dir: bool,
    pub size: u64,
    pub modified: u64,
    pub children: Option<Vec<FsNode>>,
}

/// The mathematical shape of a snapshot tree.
pub ghost struct NodeView {
    pub path: Seq<char>,
    pub name: Seq<char>,
    pub is_dir: bool,
    pub size: u64,
    pub modified: u64,
    pub children: Option<Seq<NodeView>>,
}

pub open spec fn view_node(n: FsNode) -> NodeView
    decreases n,
{
    NodeView {
        path: n.path@,
        name: n.name@,
        is_dir: n.is_dir,
        size: n.size,
        modified: n.modified,
        children: match n.children {
            None => None,
            Some(cs) => Some(view_nodes(cs@)),
        },
    }
}

pub open spec fn view_nodes(cs: Seq<FsNode>) -> Seq<NodeView>
    decreases cs,
{
    if cs.len() == 0 {
        Seq::empty()
    } else {
        seq![view_node(cs[0])] + view_nodes(cs.skip(1))
    }
}

pub broadcast proof fn lemma_view_nodes_len(cs: Seq<FsNode>)
    ensures
        #[trigger] view_nodes(cs).len() == cs.len(),
    decreases cs,
{
    if cs.len() > 0 {
        lemma_view_nodes_len(cs.skip(1));
    }
}

pub broadcast proof fn lemma_view_nodes_index(cs: Seq<FsNode>, i: int)
    requires
        0 <= i < cs.len(),
    ensures
        #[trigger] view_nodes(cs)[i] == view_node(cs[i]),
    decreases cs,
{
    lemma_view_nodes_len(cs);
    if i > 0 {
        lemma_view_nodes_index(cs.skip(1), i - 1);
        assert(cs.skip(1)[i - 1] == cs[i]);
    }
}

/// Some child of `cs` carries the name `nm`.
pub open spec fn has_name(cs: Seq<NodeView>, nm: Seq<char>) -> bool {
    exists|i: int| 0 <= i < cs.len() && cs[i].name == nm
}

/// The children kept when duplicates by name are dropped: of several
/// entries with one name, the first survives.
pub open spec fn dedup_names(cs: Seq<NodeView>) -> Seq<NodeView>
    decreases cs.len(),
{
    if cs.len() == 0 {
        Seq::empty()
    } else {
        let pre = dedup_names(cs.take(cs.len() - 1));
        if has_name(pre, cs.last().name) {
            pre
        } else {
            pre.push(cs.last())
        }
    }
}

/// Well-formedness of a snapshot tree: children
/// are present exactly on directories, directories have no intrinsic size,
/// and no two children of one directory share a name.
pub open spec fn wf_node(n: NodeView) -> bool
    decreases n,
{
    &&& n.is_dir == (n.children is Some)
    &&& (n.is_dir ==> n.size == 0)
    &&& match n.children {
        None => true,
        Some(cs) => {
            &&& (forall|i: int, j: int|
                0 <= i < j < cs.len() ==> (#[trigger] cs[i]).name != (#[trigger] cs[j]).name)
            &&& (forall|i: int| 0 <= i < cs.len() ==> wf_node(#[trigger] cs[i]))
        },
    }
}

/// Capture law: in a well-formed snapshot tree, no directory holds two
/// children with one name.
pub proof fn lemma_wf_children_distinct(n: NodeView)
    requires
        wf_node(n),
    ensures
        match n.children {
            None => true,
            Some(cs) => forall|i: int, j: int|
                0 <= i < j < cs.len() ==> (#[trigger] cs[i]).name != (#[trigger] cs[j]).name,
        },
{
}

/// A leaf entry: a plain file.
pub fn leaf_node(path: String, name: String, size: u64, modified: u64) -> (r: FsNode)
    ensures
        view_node(r) == (NodeView {
            path: path@,
            name: name@,
            is_dir: false,
            size: size,
            modified: modified,
            children: None,
        }),
        wf_node(view_node(r)),
{
    FsNode { path, name, is_dir: false, size, modified, children: None }
}

fn contains_name(acc: &Vec<FsNode>, nm: &String) -> (r: bool)
    ensures
        r == has_name(view_nodes(acc@), nm@),
{
    broadcast use lemma_view_nodes_len, lemma_view_nodes_index;

    let mut i: usize = 0;
    while i < acc.len()
        invariant
            i <= acc@.len(),
            forall|j: int| 0 <= j < i ==> view_nodes(acc@)[j].name != nm@,
        decreases acc@.len() - i,
    {
        if acc[i].name.eq(nm) {
            proof {
                lemma_view_nodes_len(acc@);
                lemma_view_nodes_index(acc@, i as int);
                assert(view_nodes(acc@)[i as int].name == nm@);
            }
            return true;
        }
        proof {
            lemma_view_nodes_index(acc@, i as int);
        }
        i += 1;
    }
    false
}

/// A directory entry. Children are taken in the order given; a child whose
/// name already occurred is dropped, so the children of the result never
/// hold two entries with one name, whatever was handed in.
#[verifier::loop_isolation(false)]
pub fn dir_node(path: String, name: String, modified: u64, children: Vec<FsNode>) -> (r: FsNode)
    ensures
        ({
            let rv = view_node(r);
            &&& rv.path == path@
            &&& rv.name == name@
            &&& rv.is_dir
            &&& rv.size == 0
            &&& rv.modified == modified
            &&& rv.children == Some(dedup_names(view_nodes(children@)))
        }),
        (forall|i: int|
            0 <= i < view_nodes(children@).len() ==> wf_node(#[trigger] view_nodes(children@)[i]))
            ==> wf_node(view_node(r)),
{
    broadcast use lemma_view_nodes_len, lemma_view_nodes_index;

    let mut kept: Vec<FsNode> = Vec::new();
    let mut i: usize = 0;
    proof {
        assert(children@.subrange(0, 0) =~= Seq::<FsNode>::empty());
        assert(view_nodes(kept@) =~= dedup_names(view_nodes(children@.subrange(0, 0))));
    }
    while i < children.len()
        invariant
            i <= children@.len(),
            view_nodes(kept@) == dedup_names(view_nodes(children@.subrange(0, i as int))),
            forall|j: int|
                0 <= j < kept@.len() ==> exists|m: int|
                    0 <= m < children@.len() && #[trigger] view_nodes(kept@)[j] == view_nodes(
                        children@,
                    )[m],
        decreases children@.len() - i,
    {
        let c = &children[i];
        let dup = contains_name(&kept, &c.name);
        proof {
            let pre = children@.subrange(0, i as int);
            let cur = children@.subrange(0, i + 1 as int);
            assert(cur =~= pre.push(children@[i as int]));
            lemma_view_nodes_snoc(pre, children@[i as int]);
            assert(view_nodes(cur) == view_nodes(pre).push(view_node(children@[i as int])));
            assert(view_nodes(cur).take(view_nodes(cur).len() - 1) =~= view_nodes(pre));
            assert(view_nodes(cur).last() == view_node(children@[i as int]));
            assert(view_node(children@[i as int]).name == children@[i as int].name@);
        }
        if !dup {
            let ghost old_kept = kept@;
            kept.push(children[i].clone_node());
            proof {
                lemma_view_nodes_snoc(old_kept, kept@.last());
                assert(kept@ == old_kept.push(kept@.last()));
                assert(view_node(kept@.last()) == view_node(children@[i as int]));
                assert(view_nodes(kept@) == view_nodes(old_kept).push(
                    view_node(children@[i as int]),
                ));
                lemma_view_nodes_len(children@);
                lemma_view_nodes_index(children@, i as int);
                lemma_view_nodes_len(kept@);
                assert(view_nodes(kept@)[view_nodes(kept@).len() - 1] == view_nodes(
                    children@,
                )[i as int]);
                assert(forall|j: int|
                    0 <= j < old_kept.len() ==> view_nodes(kept@)[j] == view_nodes(old_kept)[j]);
            }
        }
        i += 1;
    }
    proof {
        assert(children@.subrange(0, children@.len() as int) =~= children@);
    }
    let r = FsNode { path, name, is_dir: true, size: 0, modified, children: Some(kept) };
    proof {
        lemma_dedup_distinct(view_nodes(children@));
        lemma_dedup_members(view_nodes(children@));
    }
    r
}

pub proof fn lemma_view_nodes_snoc(cs: Seq<FsNode>, c: FsNode)
    ensures
        view_nodes(cs.push(c)) == view_nodes(cs).push(view_node(c)),
    decreases cs.len(),
{
    broadcast use lemma_view_nodes_len, lemma_view_nodes_index;

    if cs.len() == 0 {
        assert(cs.push(c)[0] == c);
        assert(cs.push(c).skip(1) =~= Seq::<FsNode>::empty());
        assert(view_nodes(cs.push(c)) =~= view_nodes(cs).push(view_node(c)));
    } else {
        assert(cs.push(c)[0] == cs[0]);
        assert(cs.push(c).skip(1) =~= cs.skip(1).push(c));
        lemma_view_nodes_snoc(cs.skip(1), c);
        assert(view_nodes(cs.push(c)) =~= view_nodes(cs).push(view_node(c)));
    }
}

/// No two entries that survive deduplication share a name.
pub proof fn lemma_dedup_distinct(cs: Seq<NodeView>)
    ensures
        forall|i: int, j: int|
            0 <= i < j < dedup_names(cs).len() ==> (#[trigger] dedup_names(cs)[i]).name != (
            #[trigger] dedup_names(cs)[j]).name,
    decreases cs.len(),
{
    if cs.len() > 0 {
        let pre = dedup_names(cs.take(cs.len() - 1));
        lemma_dedup_distinct(cs.take(cs.len() - 1));
        let d = dedup_names(cs);
        if !has_name(pre, cs.last().name) {
            assert forall|i: int, j: int| 0 <= i < j < d.len() implies (#[trigger] d[i]).name != (
            #[trigger] d[j]).name by {
                if j < d.len() - 1 {
                    assert(d[i] == pre[i] && d[j] == pre[j]);
                } else {
                    assert(d[i] == pre[i] && d[j] == cs.last());
                    assert(!(exists|m: int|
                        0 <= m < pre.len() && pre[m].name == cs.last().name));
                }
            }
        }
    }
}

/// Every entry that survives deduplication was one of the entries given.
pub proof fn lemma_dedup_members(cs: Seq<NodeView>)
    ensures
        forall|i: int|
            0 <= i < dedup_names(cs).len() ==> exists|m: int|
                0 <= m < cs.len() && #[trigger] dedup_names(cs)[i] == cs[m],
    decreases cs.len(),
{
    if cs.len() > 0 {
        let pre0 = cs.take(cs.len() - 1);
        lemma_dedup_members(pre0);
        let d = dedup_names(cs);
        assert forall|i: int| 0 <= i < d.len() implies exists|m: int|
            0 <= m < cs.len() && #[trigger] d[i] == cs[m] by {
            if i < dedup_names(pre0).len() {
                assert(d[i] == dedup_names(pre0)[i]);
                let m = choose|m: int| 0 <= m < pre0.len() && dedup_names(pre0)[i] == pre0[m];
                assert(pre0[m] == cs[m]);
                assert(d[i] == cs[m]);
            } else {
                assert(d[i] == cs.last());
                assert(d[i] == cs[cs.len() - 1]);
            }
        }
    }
}

impl FsNode {
    /// A structural copy of the entry and its subtree.
    #[verifier::loop_isolation(false)]
    pub fn clone_node(&self) -> (r: FsNode)
        ensures
            view_node(r) == view_node(*self),
        decreases *self,
    {
        broadcast use lemma_view_nodes_len, lemma_view_nodes_index;

        let children: Option<Vec<FsNode>> = match &self.children {
            None => None,
            Some(cs) => {
                let mut out: Vec<FsNode> = Vec::new();
                let mut i: usize = 0;
                while i < cs.len()
                    invariant
                        i <= cs@.len(),
                        out@.len() == i,
                        self.children == Some(*cs),
                        forall|j: int|
                            0 <= j < i ==> view_node(#[trigger] out@[j]) == view_node(cs@[j]),
                    decreases cs@.len() - i,
                {
                    proof {
                        assert(decreases_to!(*self => *cs));
                        assert(decreases_to!(*cs => cs@));
                        assert(decreases_to!(cs@ => cs@[i as int]));
                    }
                    let cc = cs[i].clone_node();
                    out.push(cc);
                    i += 1;
                }
                proof {
                    lemma_views_pointwise(out@, cs@);
                }
                Some(out)
            },
        };
        FsNode {
            path: self.path.clone(),
            name: self.name.clone(),
            is_dir: self.is_dir,
            size: self.size,
            modified: self.modified,
            children,
        }
    }
}

/// The key of an entry in a path index: the root is keyed by its own name,
/// every other entry by its parent's key, a slash, and its name.
pub open spec fn node_key(prefix: Seq<char>, name: Seq<char>) -> Seq<char> {
    if prefix.len() == 0 {
        name
    } else {
        prefix + seq!['/'] + name
    }
}

/// The path index of a subtree under `prefix`: one `(key, modified)` pair
/// per entry, in depth-first order, the entry before its children.
pub open spec fn flat_entries(n: NodeView, prefix: Seq<char>) -> Seq<(Seq<char>, u64)>
    decreases n,
{
    let p = node_key(prefix, n.name);
    seq![(p, n.modified)] + match n.children {
        None => Seq::empty(),
        Some(cs) => flat_list(cs, p),
    }
}

pub open spec fn flat_list(cs: Seq<NodeView>, prefix: Seq<char>) -> Seq<(Seq<char>, u64)>
    decreases cs,
{
    if cs.len() == 0 {
        Seq::empty()
    } else {
        flat_entries(cs[0], prefix) + flat_list(cs.skip(1), prefix)
    }
}

pub open spec fn pairs_view(v: Seq<(String, u64)>) -> Seq<(Seq<char>, u64)> {
    Seq::new(v.len(), |i: int| (v[i].0@, v[i].1))
}

proof fn lemma_flat_list_snoc(cs: Seq<NodeView>, c: NodeView, prefix: Seq<char>)
    ensures
        flat_list(cs.push(c), prefix) == flat_list(cs, prefix) + flat_entries(c, prefix),
    decreases cs.len(),
{
    if cs.len() == 0 {
        assert(cs.push(c)[0] == c);
        assert(cs.push(c).skip(1) =~= Seq::<NodeView>::empty());
        assert(flat_list(cs.push(c), prefix) == flat_entries(c, prefix) + flat_list(
            cs.push(c).skip(1),
            prefix,
        ));
        assert(flat_list(cs.push(c).skip(1), prefix) == Seq::<(Seq<char>, u64)>::empty());
        assert(flat_entries(c, prefix) + Seq::<(Seq<char>, u64)>::empty() =~= flat_entries(
            c,
            prefix,
        ));
        assert(flat_list(cs, prefix) == Seq::<(Seq<char>, u64)>::empty());
        assert(Seq::<(Seq<char>, u64)>::empty() + flat_entries(c, prefix) =~= flat_entries(
            c,
            prefix,
        ));
    } else {
        assert(cs.push(c)[0] == cs[0]);
        assert(cs.push(c).skip(1) =~= cs.skip(1).push(c));
        lemma_flat_list_snoc(cs.skip(1), c, prefix);
        assert(flat_list(cs.push(c), prefix) == flat_entries(cs[0], prefix) + (flat_list(
            cs.skip(1),
            prefix,
        ) + flat_entries(c, prefix)));
        assert(flat_entries(cs[0], prefix) + (flat_list(cs.skip(1), prefix) + flat_entries(
            c,
            prefix,
        )) =~= (flat_entries(cs[0], prefix) + flat_list(cs.skip(1), prefix)) + flat_entries(
            c,
            prefix,
        ));
    }
}

#[verifier::loop_isolation(false)]
fn flatten_into(n: &FsNode, prefix: &str, out: &mut Vec<(String, u64)>)
    ensures
        pairs_view(final(out)@) == pairs_view(old(out)@) + flat_entries(view_node(*n), prefix@),
    decreases *n,
{
    broadcast use lemma_view_nodes_len, lemma_view_nodes_index;

    let key: String = if prefix.unicode_len() == 0 {
        n.name.clone()
    } else {
        let mut k = String::from_str(prefix);
        k.append("/");
        k.append(n.name.as_str());
        k
    };
    proof {
        reveal_strlit("/");
        if prefix@.len() != 0 {
            assert("/"@ =~= seq!['/']);
        }
        assert(key@ == node_key(prefix@, n.name@));
    }
    let ghost entry = (key@, n.modified);
    out.push((key.clone(), n.modified));
    proof {
        assert(pairs_view(out@) =~= pairs_view(old(out)@).push(entry));
        assert(pairs_view(old(out)@).push(entry) =~= pairs_view(old(out)@) + seq![entry]);
    }
    match &n.children {
        None => {
            proof {
                assert(flat_entries(view_node(*n), prefix@) =~= seq![entry]);
            }
        },
        Some(cs) => {
            let ghost base = pairs_view(old(out)@) + seq![entry];
            let mut i: usize = 0;
            proof {
                assert(view_nodes(cs@.subrange(0, 0)) =~= Seq::<NodeView>::empty());
                assert(flat_list(view_nodes(cs@.subrange(0, 0)), key@) =~= Seq::<(
                    Seq<char>,
                    u64,
                )>::empty());
                assert(pairs_view(out@) =~= base + flat_list(
                    view_nodes(cs@.subrange(0, 0)),
                    key@,
                ));
            }
            while i < cs.len()
                invariant
                    i <= cs@.len(),
                    pairs_view(out@) == base + flat_list(
                        view_nodes(cs@.subrange(0, i as int)),
                        key@,
                    ),
                decreases cs@.len() - i,
            {
                proof {
                    assert(decreases_to!(*n => *cs));
                    assert(decreases_to!(*cs => cs@));
                    assert(decreases_to!(cs@ => cs@[i as int]));
                }
                flatten_into(&cs[i], key.as_str(), out);
                proof {
                    let pre = cs@.subrange(0, i as int);
                    let cur = cs@.subrange(0, i + 1 as int);
                    assert(cur =~= pre.push(cs@[i as int]));
                    lemma_view_nodes_snoc(pre, cs@[i as int]);
                    lemma_flat_list_snoc(view_nodes(pre), view_node(cs@[i as int]), key@);
                    assert(pairs_view(out@) =~= base + flat_list(view_nodes(cur), key@));
                }
                i += 1;
            }
            proof {
                assert(cs@.subrange(0, cs@.len() as int) =~= cs@);
                assert(flat_entries(view_node(*n), prefix@) =~= seq![entry] + flat_list(
                    view_nodes(cs@),
                    key@,
                ));
                assert(pairs_view(out@) =~= pairs_view(old(out)@) + flat_entries(
                    view_node(*n),
                    prefix@,
                ));
            }
        },
    }
}

/// The path index of a whole tree: one `(key, modified)` pair per entry in
/// depth-first order, the root keyed by its own name.
pub fn flatten(n: &FsNode) -> (r: Vec<(String, u64)>)
    ensures
        pairs_view(r@) == flat_entries(view_node(*n), Seq::empty()),
{
    let mut out: Vec<(String, u64)> = Vec::new();
    let ghost e: Seq<char> = Seq::empty();
    flatten_into(n, "", &mut out);
    proof {
        assert(""@.len() == 0) by {
            reveal_strlit("");
        }
        assert(""@ =~= e);
        assert(pairs_view(Seq::<(String, u64)>::empty()) =~= Seq::<(Seq<char>, u64)>::empty());
        assert(pairs_view(out@) =~= flat_entries(view_node(*n), e));
    }
    out
}

/// Whether a file name ends, case-insensitively, in `.pdf`.
pub open spec fn is_pdf_name(name: Seq<char>) -> bool {
    &&& name.len() >= 4
    &&& name[name.len() - 4] == '.'
    &&& (name[name.len() - 3] == 'p' || name[name.len() - 3] == 'P')
    &&& (name[name.len() - 2] == 'd' || name[name.len() - 2] == 'D')
    &&& (name[name.len() - 1] == 'f' || name[name.len() - 1] == 'F')
}

/// The PDF candidates of a subtree: the `path` field of every entry whose
/// name ends case-insensitively in `.pdf`, in depth-first order.
pub open spec fn candidates(n: NodeView) -> Seq<Seq<char>>
    decreases n,
{
    (if is_pdf_name(n.name) {
        seq![n.path]
    } else {
        Seq::empty()
    }) + match n.children {
        None => Seq::empty(),
        Some(cs) => cand_list(cs),
    }
}

pub open spec fn cand_list(cs: Seq<NodeView>) -> Seq<Seq<char>>
    decreases cs,
{
    if cs.len() == 0 {
        Seq::empty()
    } else {
        candidates(cs[0]) + cand_list(cs.skip(1))
    }
}

pub open spec fn strs_view(v: Seq<String>) -> Seq<Seq<char>> {
    Seq::new(v.len(), |i: int| v[i]@)
}

fn is_pdf_name_x(name: &String) -> (r: bool)
    ensures
        r == is_pdf_name(name@),
{
    let s = name.as_str();
    let n = s.unicode_len();
    if n < 4 {
        return false;
    }
    let c0 = s.get_char(n - 4);
    let c1 = s.get_char(n - 3);
    let c2 = s.get_char(n - 2);
    let c3 = s.get_char(n - 1);
    c0 == '.' && (c1 == 'p' || c1 == 'P') && (c2 == 'd' || c2 == 'D') && (c3 == 'f' || c3 == 'F')
}

proof fn lemma_cand_list_snoc(cs: Seq<NodeView>, c: NodeView)
    ensures
        cand_list(cs.push(c)) == cand_list(cs) + candidates(c),
    decreases cs.len(),
{
    if cs.len() == 0 {
        assert(cs.push(c)[0] == c);
        assert(cs.push(c).skip(1) =~= Seq::<NodeView>::empty());
        assert(cand_list(cs.push(c)) == candidates(c) + cand_list(cs.push(c).skip(1)));
        assert(cand_list(cs.push(c).skip(1)) == Seq::<Seq<char>>::empty());
        assert(candidates(c) + Seq::<Seq<char>>::empty() =~= candidates(c));
        assert(cand_list(cs) == Seq::<Seq<char>>::empty());
        assert(Seq::<Seq<char>>::empty() + candidates(c) =~= candidates(c));
    } else {
        assert(cs.push(c)[0] == cs[0]);
        assert(cs.push(c).skip(1) =~= cs.skip(1).push(c));
        lemma_cand_list_snoc(cs.skip(1), c);
        assert(cand_list(cs.push(c)) == candidates(cs[0]) + (cand_list(cs.skip(1)) + candidates(
            c,
        )));
        assert(candidates(cs[0]) + (cand_list(cs.skip(1)) + candidates(c)) =~= (candidates(cs[0])
            + cand_list(cs.skip(1))) + candidates(c));
    }
}

#[verifier::loop_isolation(false)]
fn collect_candidates(n: &FsNode, out: &mut Vec<String>)
    ensures
        strs_view(final(out)@) == strs_view(old(out)@) + candidates(view_node(*n)),
    decreases *n,
{
    broadcast use lemma_view_nodes_len, lemma_view_nodes_index;

    if is_pdf_name_x(&n.name) {
        out.push(n.path.clone());
        proof {
            assert(strs_view(out@) =~= strs_view(old(out)@) + seq![n.path@]);
        }
    } else {
        proof {
            assert(strs_view(out@) =~= strs_view(old(out)@) + Seq::<Seq<char>>::empty());
        }
    }
    let ghost base = strs_view(out@);
    match &n.children {
        None => {
            proof {
                assert(strs_view(out@) =~= strs_view(old(out)@) + candidates(view_node(*n)));
            }
        },
        Some(cs) => {
            let mut i: usize = 0;
            proof {
                assert(view_nodes(cs@.subrange(0, 0)) =~= Seq::<NodeView>::empty());
                assert(strs_view(out@) =~= base + cand_list(view_nodes(cs@.subrange(0, 0))));
            }
            while i < cs.len()
                invariant
                    i <= cs@.len(),
                    strs_view(out@) == base + cand_list(view_nodes(cs@.subrange(0, i as int))),
                decreases cs@.len() - i,
            {
                proof {
                    assert(decreases_to!(*n => *cs));
                    assert(decreases_to!(*cs => cs@));
                    assert(decreases_to!(cs@ => cs@[i as int]));
                }
                collect_candidates(&cs[i], out);
                proof {
                    let pre = cs@.subrange(0, i as int);
                    let cur = cs@.subrange(0, i + 1 as int);
                    assert(cur =~= pre.push(cs@[i as int]));
                    lemma_view_nodes_snoc(pre, cs@[i as int]);
                    lemma_cand_list_snoc(view_nodes(pre), view_node(cs@[i as int]));
                    assert(strs_view(out@) =~= base + cand_list(view_nodes(cur)));
                }
                i += 1;
            }
            proof {
                assert(cs@.subrange(0, cs@.len() as int) =~= cs@);
                assert(strs_view(out@) =~= strs_view(old(out)@) + candidates(view_node(*n)));
            }
        },
    }
}

/// Every entry of the tree whose name ends case-insensitively in `.pdf`,
/// by its captured path, in depth-first traversal order.
pub fn list_candidates(n: &FsNode) -> (r: Vec<String>)
    ensures
        strs_view(r@) == candidates(view_node(*n)),
{
    let mut out: Vec<String> = Vec::new();
    collect_candidates(n, &mut out);
    proof {
        assert(strs_view(Seq::<String>::empty()) =~= Seq::<Seq<char>>::empty());
        assert(strs_view(out@) =~= candidates(view_node(*n)));
    }
    out
}

proof fn lemma_views_pointwise(a: Seq<FsNode>, b: Seq<FsNode>)
    requires
        a.len() == b.len(),
        forall|j: int| 0 <= j < a.len() ==> view_node(#[trigger] a[j]) == view_node(b[j]),
    ensures
        view_nodes(a) == view_nodes(b),
{
    broadcast use lemma_view_nodes_len, lemma_view_nodes_index;

    assert(view_nodes(a) =~= view_nodes(b));
}

} // verus!
