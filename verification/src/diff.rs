//! The drift engine: flattens two snapshot trees to path indices and
//! reports the keys added, removed and modified between them.

use vstd::prelude::*;
use crate::tree::{
    FsNode, NodeView, view_node, flat_entries, flat_list, node_key, pairs_view, flatten,
    strs_view, wf_node,
};

verus! {

/// The delta between two snapshots: keys only in the new tree, keys only
/// in the old tree, and keys in both whose modification time changed (with
/// the old and new values).
pub struct DriftReport {
    pub added: Vec<String>,
    pub removed: Vec<String>,
    pub modified: Vec<(String, u64, u64)>,
}

/// The value of the first entry carrying `key`, if any.
pub open spec fn lookup(es: Seq<(Seq<char>, u64)>, key: Seq<char>) -> Option<u64>
    decreases es.len(),
{
    if es.len() == 0 {
        None
    } else if es[0].0 == key {
        Some(es[0].1)
    } else {
        lookup(es.skip(1), key)
    }
}

pub open spec fn has_key(es: Seq<(Seq<char>, u64)>, key: Seq<char>) -> bool {
    lookup(es, key) is Some
}

/// No two entries carry one key: the snapshot invariant on a path index.
pub open spec fn unique_keys(es: Seq<(Seq<char>, u64)>) -> bool {
    forall|i: int, j: int| 0 <= i < j < es.len() ==> (#[trigger] es[i]).0 != (#[trigger] es[j]).0
}

/// The keys of `scan` that are absent from `base`, in the order of `scan`.
pub open spec fn added_list(scan: Seq<(Seq<char>, u64)>, base: Seq<(Seq<char>, u64)>) -> Seq<
    Seq<char>,
>
    decreases scan.len(),
{
    if scan.len() == 0 {
        Seq::empty()
    } else {
        let rest = added_list(scan.skip(1), base);
        if !has_key(base, scan[0].0) {
            seq![scan[0].0] + rest
        } else {
            rest
        }
    }
}

/// The keys of `older` that `newer` also carries with a different value:
/// `(key, value in older, value in newer)`, in the order of `older`.
pub open spec fn modified_list(older: Seq<(Seq<char>, u64)>, newer: Seq<(Seq<char>, u64)>) -> Seq<
    (Seq<char>, u64, u64),
>
    decreases older.len(),
{
    if older.len() == 0 {
        Seq::empty()
    } else {
        let rest = modified_list(older.skip(1), newer);
        match lookup(newer, older[0].0) {
            Some(m2) => if m2 != older[0].1 {
                seq![(older[0].0, older[0].1, m2)] + rest
            } else {
                rest
            },
            None => rest,
        }
    }
}

pub open spec fn triples_view(v: Seq<(String, u64, u64)>) -> Seq<(Seq<char>, u64, u64)> {
    Seq::new(v.len(), |i: int| (v[i].0@, v[i].1, v[i].2))
}

fn lookup_x(es: &Vec<(String, u64)>, key: &String) -> (r: Option<u64>)
    ensures
        r == lookup(pairs_view(es@), key@),
{
    let ghost ges = pairs_view(es@);
    let mut i: usize = 0;
    proof {
        assert(ges.skip(0) =~= ges);
    }
    while i < es.len()
        invariant
            i <= es@.len(),
            ges == pairs_view(es@),
            lookup(ges, key@) == lookup(ges.skip(i as int), key@),
        decreases es@.len() - i,
    {
        proof {
            assert(ges.skip(i as int)[0] == ges[i as int]);
        }
        if es[i].0.eq(key) {
            return Some(es[i].1);
        }
        proof {
            assert(ges.skip(i as int).skip(1) =~= ges.skip(i + 1 as int));
        }
        i += 1;
    }
    proof {
        assert(ges.skip(i as int).len() == 0);
    }
    None
}

proof fn lemma_added_snoc(scan: Seq<(Seq<char>, u64)>, e: (Seq<char>, u64), base: Seq<
    (Seq<char>, u64),
>)
    ensures
        added_list(scan.push(e), base) == added_list(scan, base) + (if !has_key(base, e.0) {
            seq![e.0]
        } else {
            Seq::<Seq<char>>::empty()
        }),
    decreases scan.len(),
{
    let tail: Seq<Seq<char>> = if !has_key(base, e.0) {
        seq![e.0]
    } else {
        Seq::empty()
    };
    if scan.len() == 0 {
        assert(scan.push(e)[0] == e);
        assert(scan.push(e).skip(1) =~= Seq::<(Seq<char>, u64)>::empty());
        assert(added_list(scan.push(e).skip(1), base) == Seq::<Seq<char>>::empty());
        assert(added_list(scan, base) == Seq::<Seq<char>>::empty());
        assert(seq![e.0] + Seq::<Seq<char>>::empty() =~= seq![e.0]);
        assert(Seq::<Seq<char>>::empty() + tail =~= tail);
        assert(added_list(scan.push(e), base) == tail);
    } else {
        assert(scan.push(e)[0] == scan[0]);
        assert(scan.push(e).skip(1) =~= scan.skip(1).push(e));
        lemma_added_snoc(scan.skip(1), e, base);
        if !has_key(base, scan[0].0) {
            assert(seq![scan[0].0] + (added_list(scan.skip(1), base) + tail) =~= (seq![scan[0].0]
                + added_list(scan.skip(1), base)) + tail);
        }
        assert(added_list(scan, base) + tail =~= added_list(scan.push(e), base));
    }
}

proof fn lemma_modified_snoc(older: Seq<(Seq<char>, u64)>, e: (Seq<char>, u64), newer: Seq<
    (Seq<char>, u64),
>)
    ensures
        modified_list(older.push(e), newer) == modified_list(older, newer) + (match lookup(
            newer,
            e.0,
        ) {
            Some(m2) => if m2 != e.1 {
                seq![(e.0, e.1, m2)]
            } else {
                Seq::<(Seq<char>, u64, u64)>::empty()
            },
            None => Seq::<(Seq<char>, u64, u64)>::empty(),
        }),
    decreases older.len(),
{
    let tail: Seq<(Seq<char>, u64, u64)> = match lookup(newer, e.0) {
        Some(m2) => if m2 != e.1 {
            seq![(e.0, e.1, m2)]
        } else {
            Seq::empty()
        },
        None => Seq::empty(),
    };
    if older.len() == 0 {
        assert(older.push(e)[0] == e);
        assert(older.push(e).skip(1) =~= Seq::<(Seq<char>, u64)>::empty());
        assert(modified_list(older.push(e).skip(1), newer) == Seq::<(Seq<char>, u64, u64)>::empty());
        assert(modified_list(older, newer) == Seq::<(Seq<char>, u64, u64)>::empty());
        if lookup(newer, e.0) is Some && lookup(newer, e.0)->0 != e.1 {
            assert(tail + Seq::<(Seq<char>, u64, u64)>::empty() =~= tail);
        }
        assert(Seq::<(Seq<char>, u64, u64)>::empty() + tail =~= tail);
        assert(modified_list(older.push(e), newer) == tail);
    } else {
        assert(older.push(e)[0] == older[0]);
        assert(older.push(e).skip(1) =~= older.skip(1).push(e));
        lemma_modified_snoc(older.skip(1), e, newer);
        let head: Seq<(Seq<char>, u64, u64)> = match lookup(newer, older[0].0) {
            Some(m2) => if m2 != older[0].1 {
                seq![(older[0].0, older[0].1, m2)]
            } else {
                Seq::empty()
            },
            None => Seq::empty(),
        };
        assert(modified_list(older, newer) == head + modified_list(older.skip(1), newer));
        assert(modified_list(older.push(e), newer) == head + (modified_list(older.skip(1), newer)
            + tail));
        assert(head + (modified_list(older.skip(1), newer) + tail) =~= (head + modified_list(
            older.skip(1),
            newer,
        )) + tail);
    }
}

#[verifier::loop_isolation(false)]
fn keys_absent_from(scan: &Vec<(String, u64)>, base: &Vec<(String, u64)>) -> (r: Vec<String>)
    ensures
        strs_view(r@) == added_list(pairs_view(scan@), pairs_view(base@)),
{
    let ghost gscan = pairs_view(scan@);
    let ghost gbase = pairs_view(base@);
    let mut out: Vec<String> = Vec::new();
    let mut i: usize = 0;
    proof {
        assert(gscan.subrange(0, 0) =~= Seq::<(Seq<char>, u64)>::empty());
        assert(strs_view(out@) =~= added_list(gscan.subrange(0, 0), gbase));
    }
    while i < scan.len()
        invariant
            i <= scan@.len(),
            strs_view(out@) == added_list(gscan.subrange(0, i as int), gbase),
        decreases scan@.len() - i,
    {
        let present = lookup_x(base, &scan[i].0);
        proof {
            assert(gscan.subrange(0, i + 1 as int) =~= gscan.subrange(0, i as int).push(
                gscan[i as int],
            ));
            lemma_added_snoc(gscan.subrange(0, i as int), gscan[i as int], gbase);
        }
        if present.is_none() {
            out.push(scan[i].0.clone());
            proof {
                assert(strs_view(out@) =~= added_list(gscan.subrange(0, i as int), gbase) + seq![
                    gscan[i as int].0,
                ]);
            }
        } else {
            proof {
                assert(added_list(gscan.subrange(0, i as int), gbase) + Seq::<Seq<char>>::empty()
                    =~= added_list(gscan.subrange(0, i as int), gbase));
            }
        }
        i += 1;
    }
    proof {
        assert(gscan.subrange(0, gscan.len() as int) =~= gscan);
    }
    out
}

#[verifier::loop_isolation(false)]
fn keys_modified(older: &Vec<(String, u64)>, newer: &Vec<(String, u64)>) -> (r: Vec<
    (String, u64, u64),
>)
    ensures
        triples_view(r@) == modified_list(pairs_view(older@), pairs_view(newer@)),
{
    let ghost gold = pairs_view(older@);
    let ghost gnew = pairs_view(newer@);
    let mut out: Vec<(String, u64, u64)> = Vec::new();
    let mut i: usize = 0;
    proof {
        assert(gold.subrange(0, 0) =~= Seq::<(Seq<char>, u64)>::empty());
        assert(triples_view(out@) =~= modified_list(gold.subrange(0, 0), gnew));
    }
    while i < older.len()
        invariant
            i <= older@.len(),
            triples_view(out@) == modified_list(gold.subrange(0, i as int), gnew),
        decreases older@.len() - i,
    {
        let found = lookup_x(newer, &older[i].0);
        proof {
            assert(gold.subrange(0, i + 1 as int) =~= gold.subrange(0, i as int).push(
                gold[i as int],
            ));
            lemma_modified_snoc(gold.subrange(0, i as int), gold[i as int], gnew);
        }
        match found {
            Some(m2) => {
                if m2 != older[i].1 {
                    out.push((older[i].0.clone(), older[i].1, m2));
                    proof {
                        assert(triples_view(out@) =~= modified_list(
                            gold.subrange(0, i as int),
                            gnew,
                        ) + seq![(gold[i as int].0, gold[i as int].1, m2)]);
                    }
                } else {
                    proof {
                        assert(modified_list(gold.subrange(0, i as int), gnew) + Seq::<(
                            Seq<char>,
                            u64,
                            u64,
                        )>::empty() =~= modified_list(gold.subrange(0, i as int), gnew));
                    }
                }
            },
            None => {
                proof {
                    assert(modified_list(gold.subrange(0, i as int), gnew) + Seq::<(
                        Seq<char>,
                        u64,
                        u64,
                    )>::empty() =~= modified_list(gold.subrange(0, i as int), gnew));
                }
            },
        }
        i += 1;
    }
    proof {
        assert(gold.subrange(0, gold.len() as int) =~= gold);
    }
    out
}

/// The drift between two snapshot trees. `added` holds the keys of the new
/// index that the old index lacks, in the new tree's depth-first order;
/// `removed` the keys of the old index that the new index lacks, in the old
/// tree's order; `modified` the keys of the old index that the new index
/// carries with a different modification time, with the old and the new
/// value. Unchanged keys appear nowhere.
pub fn diff(old_tree: &FsNode, new_tree: &FsNode) -> (r: DriftReport)
    ensures
        ({
            let oes = flat_entries(view_node(*old_tree), Seq::empty());
            let nes = flat_entries(view_node(*new_tree), Seq::empty());
            &&& strs_view(r.added@) == added_list(nes, oes)
            &&& strs_view(r.removed@) == added_list(oes, nes)
            &&& triples_view(r.modified@) == modified_list(oes, nes)
        }),
{
    let old_idx = flatten(old_tree);
    let new_idx = flatten(new_tree);
    let added = keys_absent_from(&new_idx, &old_idx);
    let removed = keys_absent_from(&old_idx, &new_idx);
    let modified = keys_modified(&old_idx, &new_idx);
    DriftReport { added, removed, modified }
}

/// Every key of an index is found by `lookup`.
proof fn lemma_lookup_member(es: Seq<(Seq<char>, u64)>, i: int)
    requires
        0 <= i < es.len(),
    ensures
        has_key(es, es[i].0),
    decreases es.len(),
{
    if es[0].0 != es[i].0 {
        assert(es.skip(1)[i - 1] == es[i]);
        lemma_lookup_member(es.skip(1), i - 1);
    }
}

/// Under unique keys, `lookup` returns each entry's own value.
proof fn lemma_lookup_unique(es: Seq<(Seq<char>, u64)>, i: int)
    requires
        unique_keys(es),
        0 <= i < es.len(),
    ensures
        lookup(es, es[i].0) == Some(es[i].1),
    decreases es.len(),
{
    if i == 0 {
    } else {
        assert(es[0].0 != es[i].0);
        assert forall|a: int, b: int| 0 <= a < b < es.skip(1).len() implies (#[trigger] es.skip(
            1,
        )[a]).0 != (#[trigger] es.skip(1)[b]).0 by {
            assert(es.skip(1)[a] == es[a + 1]);
            assert(es.skip(1)[b] == es[b + 1]);
        }
        assert(es.skip(1)[i - 1] == es[i]);
        lemma_lookup_unique(es.skip(1), i - 1);
    }
}

proof fn lemma_added_all_present(scan: Seq<(Seq<char>, u64)>, base: Seq<(Seq<char>, u64)>)
    requires
        forall|i: int| 0 <= i < scan.len() ==> has_key(base, (#[trigger] scan[i]).0),
    ensures
        added_list(scan, base) == Seq::<Seq<char>>::empty(),
    decreases scan.len(),
{
    if scan.len() > 0 {
        assert forall|i: int| 0 <= i < scan.skip(1).len() implies has_key(
            base,
            (#[trigger] scan.skip(1)[i]).0,
        ) by {
            assert(scan.skip(1)[i] == scan[i + 1]);
        }
        lemma_added_all_present(scan.skip(1), base);
    }
}

proof fn lemma_modified_all_same(older: Seq<(Seq<char>, u64)>, newer: Seq<(Seq<char>, u64)>)
    requires
        forall|i: int|
            0 <= i < older.len() ==> lookup(newer, (#[trigger] older[i]).0) == Some(older[i].1),
    ensures
        modified_list(older, newer) == Seq::<(Seq<char>, u64, u64)>::empty(),
    decreases older.len(),
{
    if older.len() > 0 {
        assert forall|i: int| 0 <= i < older.skip(1).len() implies lookup(
            newer,
            (#[trigger] older.skip(1)[i]).0,
        ) == Some(older.skip(1)[i].1) by {
            assert(older.skip(1)[i] == older[i + 1]);
        }
        lemma_modified_all_same(older.skip(1), newer);
    }
}

/// No character of the text is a path separator.
pub open spec fn slashless(s: Seq<char>) -> bool {
    forall|i: int| 0 <= i < s.len() ==> s[i] != '/'
}

/// Names as a filesystem hands them out: nonempty and free of separators,
/// at every entry of the tree.
pub open spec fn clean_names(n: NodeView) -> bool
    decreases n,
{
    &&& n.name.len() > 0
    &&& slashless(n.name)
    &&& match n.children {
        None => true,
        Some(cs) => forall|i: int| 0 <= i < cs.len() ==> clean_names(#[trigger] cs[i]),
    }
}

/// `key` lies in the subtree whose root is keyed `base`: it is that key
/// itself, or extends it below a separator.
pub open spec fn key_under(key: Seq<char>, base: Seq<char>) -> bool {
    &&& key.len() >= base.len()
    &&& key.take(base.len() as int) == base
    &&& (key.len() > base.len() ==> key[base.len() as int] == '/')
}

proof fn lemma_key_under_trans(key: Seq<char>, base: Seq<char>, nm: Seq<char>)
    requires
        key_under(key, base + seq!['/'] + nm),
    ensures
        key_under(key, base),
        key.len() > base.len(),
{
    let kb = base + seq!['/'] + nm;
    assert(key.take(kb.len() as int) == kb);
    assert forall|i: int| 0 <= i < kb.len() implies key[i] == kb[i] by {
        assert(key.take(kb.len() as int)[i] == key[i]);
    }
    assert(key.take(base.len() as int) =~= base);
    assert(key[base.len() as int] == kb[base.len() as int]);
    assert(kb[base.len() as int] == '/');
}

proof fn lemma_key_under_root(n: NodeView, p: Seq<char>)
    requires
        clean_names(n),
    ensures
        forall|k: int|
            0 <= k < flat_entries(n, p).len() ==> key_under(
                (#[trigger] flat_entries(n, p)[k]).0,
                node_key(p, n.name),
            ),
    decreases n, 0int,
{
    let base = node_key(p, n.name);
    let es = flat_entries(n, p);
    assert(es[0].0 == base);
    assert(base.take(base.len() as int) =~= base);
    assert(key_under(base, base));
    match n.children {
        None => {
            assert(es.len() == 1);
        },
        Some(cs) => {
            assert(base.len() > 0);
            lemma_key_under_list(cs, base);
            let body = flat_list(cs, base);
            assert forall|k: int| 0 <= k < es.len() implies key_under(
                (#[trigger] es[k]).0,
                base,
            ) by {
                if k > 0 {
                    assert(es[k] == body[k - 1]);
                    let i = choose|i: int|
                        0 <= i < cs.len() && key_under(body[k - 1].0, node_key(base, cs[i].name));
                    assert(node_key(base, cs[i].name) == base + seq!['/'] + cs[i].name);
                    lemma_key_under_trans(body[k - 1].0, base, cs[i].name);
                }
            }
        },
    }
}

proof fn lemma_key_under_list(cs: Seq<NodeView>, p: Seq<char>)
    requires
        p.len() > 0,
        forall|i: int| 0 <= i < cs.len() ==> clean_names(#[trigger] cs[i]),
    ensures
        forall|k: int|
            0 <= k < flat_list(cs, p).len() ==> exists|i: int|
                0 <= i < cs.len() && key_under(
                    (#[trigger] flat_list(cs, p)[k]).0,
                    node_key(p, cs[i].name),
                ),
    decreases cs, 1int,
{
    if cs.len() > 0 {
        lemma_key_under_root(cs[0], p);
        assert forall|i: int| 0 <= i < cs.skip(1).len() implies clean_names(
            #[trigger] cs.skip(1)[i],
        ) by {
            assert(cs.skip(1)[i] == cs[i + 1]);
        }
        lemma_key_under_list(cs.skip(1), p);
        let head = flat_entries(cs[0], p);
        let tail = flat_list(cs.skip(1), p);
        assert forall|k: int| 0 <= k < flat_list(cs, p).len() implies exists|i: int|
            0 <= i < cs.len() && key_under(
                (#[trigger] flat_list(cs, p)[k]).0,
                node_key(p, cs[i].name),
            ) by {
            if k < head.len() {
                assert(flat_list(cs, p)[k] == head[k]);
                assert(key_under(flat_list(cs, p)[k].0, node_key(p, cs[0].name)));
            } else {
                assert(flat_list(cs, p)[k] == tail[k - head.len()]);
                let i = choose|i: int|
                    0 <= i < cs.skip(1).len() && key_under(
                        tail[k - head.len()].0,
                        node_key(p, cs.skip(1)[i].name),
                    );
                assert(cs.skip(1)[i] == cs[i + 1]);
                assert(key_under(flat_list(cs, p)[k].0, node_key(p, cs[i + 1].name)));
            }
        }
    }
}

proof fn lemma_keys_separate(a: Seq<char>, b: Seq<char>, p: Seq<char>, k1: Seq<char>, k2: Seq<
    char,
>)
    requires
        a != b,
        slashless(a),
        slashless(b),
        key_under(k1, p + seq!['/'] + a),
        key_under(k2, p + seq!['/'] + b),
    ensures
        k1 != k2,
{
    if k1 == k2 {
        let b1 = p + seq!['/'] + a;
        let b2 = p + seq!['/'] + b;
        assert forall|i: int| 0 <= i < b1.len() implies k1[i] == b1[i] by {
            assert(k1.take(b1.len() as int)[i] == k1[i]);
        }
        assert forall|i: int| 0 <= i < b2.len() implies k1[i] == b2[i] by {
            assert(k2.take(b2.len() as int)[i] == k2[i]);
        }
        if a.len() == b.len() {
            assert forall|i: int| 0 <= i < a.len() implies a[i] == b[i] by {
                assert(b1[p.len() + 1 + i] == a[i]);
                assert(b2[p.len() + 1 + i] == b[i]);
            }
            assert(a =~= b);
        } else if a.len() < b.len() {
            assert(k1.len() >= b2.len() > b1.len());
            assert(k1[b1.len() as int] == '/');
            assert(b2[b1.len() as int] == b[a.len() as int]);
            assert(b[a.len() as int] != '/');
        } else {
            assert(k1.len() >= b1.len() > b2.len());
            assert(k1[b2.len() as int] == '/');
            assert(b1[b2.len() as int] == a[b.len() as int]);
            assert(a[b.len() as int] != '/');
        }
    }
}

proof fn lemma_unique_concat(x: Seq<(Seq<char>, u64)>, y: Seq<(Seq<char>, u64)>)
    requires
        unique_keys(x),
        unique_keys(y),
        forall|i: int, j: int|
            0 <= i < x.len() && 0 <= j < y.len() ==> (#[trigger] x[i]).0 != (#[trigger] y[j]).0,
    ensures
        unique_keys(x + y),
{
    assert forall|i: int, j: int| 0 <= i < j < (x + y).len() implies (#[trigger] (x + y)[i]).0 != (
    #[trigger] (x + y)[j]).0 by {
        if j < x.len() {
            assert((x + y)[i] == x[i] && (x + y)[j] == x[j]);
        } else if i >= x.len() {
            assert((x + y)[i] == y[i - x.len()] && (x + y)[j] == y[j - x.len()]);
        } else {
            assert((x + y)[i] == x[i] && (x + y)[j] == y[j - x.len()]);
        }
    }
}

proof fn lemma_clean_unique(n: NodeView, p: Seq<char>)
    requires
        wf_node(n),
        clean_names(n),
    ensures
        unique_keys(flat_entries(n, p)),
    decreases n, 0int,
{
    let base = node_key(p, n.name);
    let es = flat_entries(n, p);
    match n.children {
        None => {
            assert(es.len() == 1);
        },
        Some(cs) => {
            assert(base.len() > 0);
            lemma_clean_unique_list(cs, base);
            lemma_key_under_list(cs, base);
            let body = flat_list(cs, base);
            let root: Seq<(Seq<char>, u64)> = seq![(base, n.modified)];
            assert(unique_keys(root));
            assert forall|i: int, j: int|
                0 <= i < root.len() && 0 <= j < body.len() implies (#[trigger] root[i]).0 != (
            #[trigger] body[j]).0 by {
                let w = choose|w: int|
                    0 <= w < cs.len() && key_under(body[j].0, node_key(base, cs[w].name));
                lemma_key_under_trans(body[j].0, base, cs[w].name);
                assert(body[j].0.len() > base.len());
            }
            lemma_unique_concat(root, body);
            assert(es == root + body);
        },
    }
}

proof fn lemma_clean_unique_list(cs: Seq<NodeView>, p: Seq<char>)
    requires
        p.len() > 0,
        forall|i: int| 0 <= i < cs.len() ==> wf_node(#[trigger] cs[i]),
        forall|i: int| 0 <= i < cs.len() ==> clean_names(#[trigger] cs[i]),
        forall|i: int, j: int|
            0 <= i < j < cs.len() ==> (#[trigger] cs[i]).name != (#[trigger] cs[j]).name,
    ensures
        unique_keys(flat_list(cs, p)),
    decreases cs, 1int,
{
    if cs.len() > 0 {
        lemma_clean_unique(cs[0], p);
        assert forall|i: int| 0 <= i < cs.skip(1).len() implies wf_node(#[trigger] cs.skip(1)[i])
            && clean_names(cs.skip(1)[i]) by {
            assert(cs.skip(1)[i] == cs[i + 1]);
        }
        assert forall|i: int, j: int| 0 <= i < j < cs.skip(1).len() implies (#[trigger] cs.skip(
            1,
        )[i]).name != (#[trigger] cs.skip(1)[j]).name by {
            assert(cs.skip(1)[i] == cs[i + 1]);
            assert(cs.skip(1)[j] == cs[j + 1]);
        }
        lemma_clean_unique_list(cs.skip(1), p);
        lemma_key_under_root(cs[0], p);
        lemma_key_under_list(cs.skip(1), p);
        let head = flat_entries(cs[0], p);
        let tail = flat_list(cs.skip(1), p);
        assert forall|i: int, j: int|
            0 <= i < head.len() && 0 <= j < tail.len() implies (#[trigger] head[i]).0 != (
        #[trigger] tail[j]).0 by {
            let w = choose|w: int|
                0 <= w < cs.skip(1).len() && key_under(tail[j].0, node_key(p, cs.skip(1)[w].name));
            assert(cs.skip(1)[w] == cs[w + 1]);
            assert(cs[0].name != cs[w + 1].name);
            assert(node_key(p, cs[0].name) == p + seq!['/'] + cs[0].name);
            assert(node_key(p, cs[w + 1].name) == p + seq!['/'] + cs[w + 1].name);
            lemma_keys_separate(cs[0].name, cs[w + 1].name, p, head[i].0, tail[j].0);
        }
        lemma_unique_concat(head, tail);
        assert(flat_list(cs, p) == head + tail);
    }
}

/// The snapshot invariant holds of every well-formed tree with clean
/// names: its path index carries no two entries with one key. Together
/// with `lemma_self_diff_empty`, the self-diff of such a tree is empty.
pub proof fn lemma_wf_clean_unique_keys(t: NodeView)
    requires
        wf_node(t),
        clean_names(t),
    ensures
        unique_keys(flat_entries(t, Seq::empty())),
{
    lemma_clean_unique(t, Seq::empty());
}

/// Self-diff law: the drift of any snapshot against itself is empty on all
/// three lists, for every tree whose path index holds no duplicate key (the
/// snapshot invariant of the data model).
pub proof fn lemma_self_diff_empty(t: NodeView)
    requires
        unique_keys(flat_entries(t, Seq::empty())),
    ensures
        added_list(flat_entries(t, Seq::empty()), flat_entries(t, Seq::empty())) == Seq::<
            Seq<char>,
        >::empty(),
        modified_list(flat_entries(t, Seq::empty()), flat_entries(t, Seq::empty())) == Seq::<(
            Seq<char>,
            u64,
            u64,
        )>::empty(),
{
    let es = flat_entries(t, Seq::empty());
    assert forall|i: int| 0 <= i < es.len() implies has_key(es, (#[trigger] es[i]).0) by {
        lemma_lookup_member(es, i);
    }
    lemma_added_all_present(es, es);
    assert forall|i: int| 0 <= i < es.len() implies lookup(es, (#[trigger] es[i]).0) == Some(
        es[i].1,
    ) by {
        lemma_lookup_unique(es, i);
    }
    lemma_modified_all_same(es, es);
}

} // verus!
