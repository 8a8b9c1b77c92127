//! Text renderings shown to the operator: the saved tree as an indented
//! listing, and a drift report as one line per change. Timestamps are shown
//! as the stored epoch seconds; turning them into wall-clock text is the
//! caller's concern.

use vstd::prelude::*;
use crate::diff::DriftReport;
use crate::json::dec_digits;
use crate::json::push_u64;
use crate::tree::{strs_view, FsNode, NodeView, view_node, view_nodes, lemma_view_nodes_len,
    lemma_view_nodes_index};
use crate::diff::triples_view;

verus! {

/// Whether a name ends exactly in `.pdf`, the tag rule of the listing.
pub open spec fn ends_pdf(name: Seq<char>) -> bool {
    name.len() >= 4 && name.subrange(name.len() - 4, name.len() as int) == ".pdf"@
}

/// The tag of one entry: a directory, a PDF by its name, or a plain file.
pub open spec fn entry_tag(n: NodeView) -> Seq<char> {
    if n.is_dir {
        "[DIR]"@
    } else if ends_pdf(n.name) {
        "[PDF]"@
    } else {
        "[ARQ]"@
    }
}

/// The single listing line of one entry: its indentation (none at the
/// root, the inherited bars and a branch mark below it), its tag, its name,
/// its size and its modification time.
pub open spec fn node_line(n: NodeView, pre: Seq<char>, at_root: bool, is_last: bool) -> Seq<
    char,
> {
    (if at_root {
        Seq::<char>::empty()
    } else {
        pre + (if is_last {
            "`-- "@
        } else {
            "|-- "@
        })
    }) + entry_tag(n) + " "@ + n.name + " ("@ + dec_digits(n.size as nat)
        + " bytes, modificado: "@ + dec_digits(n.modified as nat) + ")\n"@
}

/// One entry and its subtree as listing lines; `pre` is the bar prefix the
/// entry inherited.
pub open spec fn render_node(n: NodeView, pre: Seq<char>, at_root: bool, is_last: bool) -> Seq<
    char,
>
    decreases n,
{
    node_line(n, pre, at_root, is_last) + match n.children {
        None => Seq::<char>::empty(),
        Some(cs) => render_children(
            cs,
            if at_root {
                Seq::<char>::empty()
            } else {
                pre + "|   "@
            },
        ),
    }
}

pub open spec fn render_children(cs: Seq<NodeView>, pre: Seq<char>) -> Seq<char>
    decreases cs,
{
    if cs.len() == 0 {
        Seq::empty()
    } else {
        render_node(cs[0], pre, false, cs.len() == 1) + render_children(cs.skip(1), pre)
    }
}

fn ends_pdf_x(name: &String) -> (r: bool)
    ensures
        r == ends_pdf(name@),
{
    let s = name.as_str();
    let n = s.unicode_len();
    if n < 4 {
        return false;
    }
    let c0 = s.get_char(n - 4);
    let c1 = s.get_char(n - 3);
    let c2 = s.get_char(n - 2);
    let c3 = s.get_char(n - 1);
    let r = c0 == '.' && c1 == 'p' && c2 == 'd' && c3 == 'f';
    proof {
        let t = name@.subrange(name@.len() - 4, name@.len() as int);
        reveal_strlit(".pdf");
        assert(t.len() == 4 && ".pdf"@.len() == 4);
        assert(t[0] == name@[name@.len() - 4]);
        assert(t[1] == name@[name@.len() - 3]);
        assert(t[2] == name@[name@.len() - 2]);
        assert(t[3] == name@[name@.len() - 1]);
        if r {
            assert(t =~= ".pdf"@);
        } else {
            assert(t != ".pdf"@);
        }
    }
    r
}

fn push_line(out: &mut String, n: &FsNode, pre: &str, at_root: bool, is_last: bool)
    ensures
        final(out)@ == old(out)@ + node_line(view_node(*n), pre@, at_root, is_last),
{
    if !at_root {
        out.append(pre);
        if is_last {
            out.append("`-- ");
        } else {
            out.append("|-- ");
        }
    }
    if n.is_dir {
        out.append("[DIR]");
    } else if ends_pdf_x(&n.name) {
        out.append("[PDF]");
    } else {
        out.append("[ARQ]");
    }
    out.append(" ");
    out.append(n.name.as_str());
    out.append(" (");
    push_u64(out, n.size);
    out.append(" bytes, modificado: ");
    push_u64(out, n.modified);
    out.append(")\n");
    proof {
        assert(out@ =~= old(out)@ + node_line(view_node(*n), pre@, at_root, is_last));
    }
}

#[verifier::loop_isolation(false)]
#[verifier::rlimit(50)]
fn push_node(out: &mut String, n: &FsNode, pre: &str, at_root: bool, is_last: bool)
    ensures
        final(out)@ == old(out)@ + render_node(view_node(*n), pre@, at_root, is_last),
    decreases *n,
{
    broadcast use lemma_view_nodes_len, lemma_view_nodes_index;

    push_line(out, n, pre, at_root, is_last);
    let ghost head = old(out)@ + node_line(view_node(*n), pre@, at_root, is_last);
    match &n.children {
        None => {
            proof {
                assert(out@ =~= old(out)@ + render_node(view_node(*n), pre@, at_root, is_last));
            }
        },
        Some(cs) => {
            let child_pre: String = if at_root {
                String::new()
            } else {
                let mut p = String::from_str(pre);
                p.append("|   ");
                p
            };
            let ghost cpre = child_pre@;
            let mut i: usize = 0;
            while i < cs.len()
                invariant
                    i <= cs@.len(),
                    cpre == child_pre@,
                    out@ == head + render_prefix(view_nodes(cs@), i as int, cpre),
                decreases cs@.len() - i,
            {
                proof {
                    assert(decreases_to!(*n => *cs));
                    assert(decreases_to!(*cs => cs@));
                    assert(decreases_to!(cs@ => cs@[i as int]));
                }
                let last = i + 1 == cs.len();
                push_node(out, &cs[i], child_pre.as_str(), false, last);
                proof {
                    let vs = view_nodes(cs@);
                    let rn = render_node(vs[i as int], cpre, false, last);
                    assert(render_prefix(vs, i + 1, cpre) == render_prefix(vs, i as int, cpre)
                        + rn);
                    assert((head + render_prefix(vs, i as int, cpre)) + rn =~= head
                        + render_prefix(vs, i + 1, cpre));
                }
                i += 1;
            }
            proof {
                let vs = view_nodes(cs@);
                lemma_render_split(vs, vs.len() as int, cpre);
                assert(vs.skip(vs.len() as int).len() == 0);
                assert(render_prefix(vs, vs.len() as int, cpre) + Seq::<char>::empty()
                    =~= render_prefix(vs, vs.len() as int, cpre));
                assert(out@ =~= old(out)@ + render_node(view_node(*n), pre@, at_root, is_last));
            }
        },
    }
}

/// The listing of the children before position `i`, each rendered with its
/// own is-last flag.
pub open spec fn render_prefix(cs: Seq<NodeView>, i: int, pre: Seq<char>) -> Seq<char>
    decreases i,
{
    if i <= 0 {
        Seq::empty()
    } else {
        render_prefix(cs, i - 1, pre) + render_node(cs[i - 1], pre, false, i == cs.len())
    }
}

proof fn lemma_render_split(cs: Seq<NodeView>, i: int, pre: Seq<char>)
    requires
        0 <= i <= cs.len(),
    ensures
        render_children(cs, pre) == render_prefix(cs, i, pre) + render_children(cs.skip(i), pre),
    decreases i,
{
    if i == 0 {
        assert(cs.skip(0) =~= cs);
        assert(Seq::<char>::empty() + render_children(cs, pre) =~= render_children(cs, pre));
    } else {
        lemma_render_split(cs, i - 1, pre);
        let su = cs.skip(i - 1);
        assert(su[0] == cs[i - 1]);
        assert(su.len() == cs.len() - i + 1);
        assert(su.skip(1) =~= cs.skip(i));
        assert(render_children(su, pre) == render_node(cs[i - 1], pre, false, i == cs.len())
            + render_children(cs.skip(i), pre));
        assert(render_prefix(cs, i - 1, pre) + (render_node(cs[i - 1], pre, false, i == cs.len())
            + render_children(cs.skip(i), pre)) =~= (render_prefix(cs, i - 1, pre) + render_node(
            cs[i - 1],
            pre,
            false,
            i == cs.len(),
        )) + render_children(cs.skip(i), pre));
    }
}

/// The whole listing of a tree, the root unindented.
pub fn render_tree(n: &FsNode) -> (r: String)
    ensures
        r@ == render_node(view_node(*n), Seq::empty(), true, true),
{
    let mut out = String::new();
    push_node(&mut out, n, "", true, true);
    proof {
        assert(""@.len() == 0) by {
            reveal_strlit("");
        }
        assert(""@ =~= Seq::<char>::empty());
        assert(Seq::<char>::empty() + render_node(view_node(*n), Seq::empty(), true, true)
            =~= render_node(view_node(*n), Seq::empty(), true, true));
    }
    out
}

/// Lines of one kind in a drift report: the tag, the key, a newline.
pub open spec fn tagged_lines(tag: Seq<char>, rs: Seq<Seq<char>>) -> Seq<char>
    decreases rs,
{
    if rs.len() == 0 {
        Seq::empty()
    } else {
        tag + rs[0] + "\n"@ + tagged_lines(tag, rs.skip(1))
    }
}

/// Lines for the modified keys: the key and both timestamps.
pub open spec fn modified_lines(ms: Seq<(Seq<char>, u64, u64)>) -> Seq<char>
    decreases ms,
{
    if ms.len() == 0 {
        Seq::empty()
    } else {
        "Alterado: "@ + ms[0].0 + " (modificado de "@ + dec_digits(ms[0].1 as nat) + " para "@
            + dec_digits(ms[0].2 as nat) + ")\n"@ + modified_lines(ms.skip(1))
    }
}

/// The whole text of a drift report: removals, then additions, then the
/// modified keys, one line each, in the report's order.
pub open spec fn spec_report_text(removed: Seq<Seq<char>>, added: Seq<Seq<char>>, modified: Seq<
    (Seq<char>, u64, u64),
>) -> Seq<char> {
    tagged_lines("Removido: "@, removed) + tagged_lines("Adicionado: "@, added) + modified_lines(
        modified,
    )
}

proof fn lemma_tagged_snoc(tag: Seq<char>, rs: Seq<Seq<char>>, x: Seq<char>)
    ensures
        tagged_lines(tag, rs.push(x)) == tagged_lines(tag, rs) + (tag + x + "\n"@),
    decreases rs,
{
    let line = tag + x + "\n"@;
    if rs.len() == 0 {
        assert(rs.push(x)[0] == x);
        assert(rs.push(x).skip(1) =~= Seq::<Seq<char>>::empty());
        assert(tagged_lines(tag, rs.push(x).skip(1)) =~= Seq::<char>::empty());
        assert(tagged_lines(tag, rs.push(x)) =~= line + Seq::<char>::empty());
        assert(line + Seq::<char>::empty() =~= line);
        assert(Seq::<char>::empty() + line =~= line);
    } else {
        assert(rs.push(x)[0] == rs[0]);
        assert(rs.push(x).skip(1) =~= rs.skip(1).push(x));
        lemma_tagged_snoc(tag, rs.skip(1), x);
        let head = tag + rs[0] + "\n"@;
        assert(tagged_lines(tag, rs.push(x)) == head + (tagged_lines(tag, rs.skip(1)) + line));
        assert(head + (tagged_lines(tag, rs.skip(1)) + line) =~= (head + tagged_lines(
            tag,
            rs.skip(1),
        )) + line);
    }
}

proof fn lemma_modified_lines_snoc(ms: Seq<(Seq<char>, u64, u64)>, x: (Seq<char>, u64, u64))
    ensures
        modified_lines(ms.push(x)) == modified_lines(ms) + ("Alterado: "@ + x.0
            + " (modificado de "@ + dec_digits(x.1 as nat) + " para "@ + dec_digits(x.2 as nat)
            + ")\n"@),
    decreases ms,
{
    let line = "Alterado: "@ + x.0 + " (modificado de "@ + dec_digits(x.1 as nat) + " para "@
        + dec_digits(x.2 as nat) + ")\n"@;
    if ms.len() == 0 {
        assert(ms.push(x)[0] == x);
        assert(ms.push(x).skip(1) =~= Seq::<(Seq<char>, u64, u64)>::empty());
        assert(modified_lines(ms.push(x).skip(1)) =~= Seq::<char>::empty());
        assert(modified_lines(ms.push(x)) =~= line + Seq::<char>::empty());
        assert(line + Seq::<char>::empty() =~= line);
        assert(Seq::<char>::empty() + line =~= line);
    } else {
        assert(ms.push(x)[0] == ms[0]);
        assert(ms.push(x).skip(1) =~= ms.skip(1).push(x));
        lemma_modified_lines_snoc(ms.skip(1), x);
        let head = "Alterado: "@ + ms[0].0 + " (modificado de "@ + dec_digits(ms[0].1 as nat)
            + " para "@ + dec_digits(ms[0].2 as nat) + ")\n"@;
        assert(modified_lines(ms.push(x)) == head + (modified_lines(ms.skip(1)) + line));
        assert(head + (modified_lines(ms.skip(1)) + line) =~= (head + modified_lines(ms.skip(1)))
            + line);
    }
}

#[verifier::loop_isolation(false)]
fn push_tagged(out: &mut String, tag: &str, rs: &Vec<String>)
    ensures
        final(out)@ == old(out)@ + tagged_lines(tag@, strs_view(rs@)),
{
    let ghost vs = strs_view(rs@);
    let mut i: usize = 0;
    proof {
        assert(vs.take(0) =~= Seq::<Seq<char>>::empty());
    }
    while i < rs.len()
        invariant
            i <= rs@.len(),
            out@ == old(out)@ + tagged_lines(tag@, vs.take(i as int)),
        decreases rs@.len() - i,
    {
        out.append(tag);
        out.append(rs[i].as_str());
        out.append("\n");
        proof {
            assert(vs.take(i + 1 as int) =~= vs.take(i as int).push(vs[i as int]));
            lemma_tagged_snoc(tag@, vs.take(i as int), vs[i as int]);
            assert(out@ =~= old(out)@ + tagged_lines(tag@, vs.take(i + 1 as int)));
        }
        i += 1;
    }
    proof {
        assert(vs.take(vs.len() as int) =~= vs);
    }
}

#[verifier::loop_isolation(false)]
fn push_modified_lines(out: &mut String, ms: &Vec<(String, u64, u64)>)
    ensures
        final(out)@ == old(out)@ + modified_lines(triples_view(ms@)),
{
    let ghost vs = triples_view(ms@);
    let mut i: usize = 0;
    proof {
        assert(vs.take(0) =~= Seq::<(Seq<char>, u64, u64)>::empty());
    }
    while i < ms.len()
        invariant
            i <= ms@.len(),
            out@ == old(out)@ + modified_lines(vs.take(i as int)),
        decreases ms@.len() - i,
    {
        out.append("Alterado: ");
        out.append(ms[i].0.as_str());
        out.append(" (modificado de ");
        push_u64(out, ms[i].1);
        out.append(" para ");
        push_u64(out, ms[i].2);
        out.append(")\n");
        proof {
            assert(vs.take(i + 1 as int) =~= vs.take(i as int).push(vs[i as int]));
            lemma_modified_lines_snoc(vs.take(i as int), vs[i as int]);
            assert(out@ =~= old(out)@ + modified_lines(vs.take(i + 1 as int)));
        }
        i += 1;
    }
    proof {
        assert(vs.take(vs.len() as int) =~= vs);
    }
}

/// The text of a drift report: one line per removal, addition and
/// modification, in the report's own order.
pub fn render_report(report: &DriftReport) -> (r: String)
    ensures
        r@ == spec_report_text(
            strs_view(report.removed@),
            strs_view(report.added@),
            triples_view(report.modified@),
        ),
{
    let mut out = String::new();
    push_tagged(&mut out, "Removido: ", &report.removed);
    push_tagged(&mut out, "Adicionado: ", &report.added);
    push_modified_lines(&mut out, &report.modified);
    proof {
        assert(out@ =~= spec_report_text(
            strs_view(report.removed@),
            strs_view(report.added@),
            triples_view(report.modified@),
        ));
    }
    out
}

} // verus!
