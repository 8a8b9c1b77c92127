//! The single-slot snapshot store: the persisted record, its JSON shape,
//! and the proof that a saved record loads back unchanged. Reading and
//! writing the fixed file location is the caller's part; this module owns
//! the content.

use vstd::prelude::*;
use crate::json::{
    Json, JField, JsonV, is_digit, view_json, view_items, view_fields, enc_json, spec_json_of,
    write_json, parse_json, field_index, find_field, lemma_field_index, lemma_json_round_trip,
    lemma_view_items_len, lemma_view_items_index, lemma_view_fields_len, lemma_view_fields_index,
};
use crate::tree::{FsNode, NodeView, view_node, view_nodes, lemma_view_nodes_len,
    lemma_view_nodes_index, lemma_view_nodes_snoc};

verus! {

/// The persisted unit: a capture timestamp, the label of what was
/// captured, an auxiliary hex payload (empty in the tree path), and the
/// tree itself.
pub struct SnapshotRecord {
    pub datetime: String,
    pub device: String,
    pub data_hex: String,
    pub tree: FsNode,
}

pub ghost struct RecordView {
    pub datetime: Seq<char>,
    pub device: Seq<char>,
    pub data_hex: Seq<char>,
    pub tree: NodeView,
}

pub open spec fn view_record(r: SnapshotRecord) -> RecordView {
    RecordView {
        datetime: r.datetime@,
        device: r.device@,
        data_hex: r.data_hex@,
        tree: view_node(r.tree),
    }
}

/// Loading failed: the stored content is not a well-formed record.
#[derive(Debug)]
pub struct ParseError {}

/// The JSON shape of one tree entry: `children` present only on entries
/// that carry children.
pub open spec fn json_of_node(n: NodeView) -> JsonV
    decreases n,
{
    JsonV::Obj(
        seq![
            ("path"@, JsonV::Str(n.path)),
            ("name"@, JsonV::Str(n.name)),
            ("is_dir"@, JsonV::Bool(n.is_dir)),
            ("size"@, JsonV::Num(n.size)),
            ("modified"@, JsonV::Num(n.modified)),
        ] + match n.children {
            None => Seq::empty(),
            Some(cs) => seq![("children"@, JsonV::Arr(json_of_nodes(cs)))],
        },
    )
}

pub open spec fn json_of_nodes(cs: Seq<NodeView>) -> Seq<JsonV>
    decreases cs,
{
    if cs.len() == 0 {
        Seq::empty()
    } else {
        seq![json_of_node(cs[0])] + json_of_nodes(cs.skip(1))
    }
}

/// Reads one tree entry back out of its JSON shape: fields are found by
/// name wherever they stand, others are ignored, and `children` may be
/// absent or `null` on a childless entry.
pub open spec fn node_of_json(j: JsonV) -> Option<NodeView>
    decreases j,
{
    match j {
        JsonV::Obj(fields) => {
            let pi = field_index(fields, "path"@);
            let ni = field_index(fields, "name"@);
            let di = field_index(fields, "is_dir"@);
            let si = field_index(fields, "size"@);
            let mi = field_index(fields, "modified"@);
            let ci = field_index(fields, "children"@);
            if 0 <= pi < fields.len() && fields[pi].1 is Str && 0 <= ni < fields.len()
                && fields[ni].1 is Str && 0 <= di < fields.len() && fields[di].1 is Bool && 0 <= si
                < fields.len() && fields[si].1 is Num && 0 <= mi < fields.len() && fields[mi].1
                is Num {
                if ci < 0 || (0 <= ci < fields.len() && fields[ci].1 is Null) {
                    Some(
                        NodeView {
                            path: fields[pi].1->Str_0,
                            name: fields[ni].1->Str_0,
                            is_dir: fields[di].1->Bool_0,
                            size: fields[si].1->Num_0,
                            modified: fields[mi].1->Num_0,
                            children: None,
                        },
                    )
                } else if 0 <= ci < fields.len() && fields[ci].1 is Arr {
                    match nodes_of_jsons(fields[ci].1->Arr_0) {
                        Some(cs) => Some(
                            NodeView {
                                path: fields[pi].1->Str_0,
                                name: fields[ni].1->Str_0,
                                is_dir: fields[di].1->Bool_0,
                                size: fields[si].1->Num_0,
                                modified: fields[mi].1->Num_0,
                                children: Some(cs),
                            },
                        ),
                        None => None,
                    }
                } else {
                    None
                }
            } else {
                None
            }
        },
        _ => None,
    }
}

pub open spec fn nodes_of_jsons(items: Seq<JsonV>) -> Option<Seq<NodeView>>
    decreases items,
{
    if items.len() == 0 {
        Some(Seq::empty())
    } else {
        match (node_of_json(items[0]), nodes_of_jsons(items.skip(1))) {
            (Some(n), Some(ns)) => Some(seq![n] + ns),
            _ => None,
        }
    }
}

/// The JSON shape of a whole record.
pub open spec fn json_of_record(r: RecordView) -> JsonV {
    JsonV::Obj(
        seq![
            ("datetime"@, JsonV::Str(r.datetime)),
            ("device"@, JsonV::Str(r.device)),
            ("data_hex"@, JsonV::Str(r.data_hex)),
            ("fs_repr"@, json_of_node(r.tree)),
        ],
    )
}

/// Reads a record back out of its JSON shape: fields are found by name
/// wherever they stand, others are ignored.
pub open spec fn record_of_json(j: JsonV) -> Option<RecordView> {
    match j {
        JsonV::Obj(fields) => {
            let ti = field_index(fields, "datetime"@);
            let vi = field_index(fields, "device"@);
            let hi = field_index(fields, "data_hex"@);
            let ri = field_index(fields, "fs_repr"@);
            if 0 <= ti < fields.len() && fields[ti].1 is Str && 0 <= vi < fields.len()
                && fields[vi].1 is Str && 0 <= hi < fields.len() && fields[hi].1 is Str && 0 <= ri
                < fields.len() {
                match node_of_json(fields[ri].1) {
                    Some(t) => Some(
                        RecordView {
                            datetime: fields[ti].1->Str_0,
                            device: fields[vi].1->Str_0,
                            data_hex: fields[hi].1->Str_0,
                            tree: t,
                        },
                    ),
                    None => None,
                }
            } else {
                None
            }
        },
        _ => None,
    }
}

/// What `save` writes for a record.
pub open spec fn spec_encode_record(r: RecordView) -> Seq<char> {
    enc_json(json_of_record(r))
}

/// What `load` makes of stored content.
pub open spec fn spec_decode_record(s: Seq<char>) -> Option<RecordView> {
    match spec_json_of(s) {
        Some(j) => record_of_json(j),
        None => None,
    }
}

/// The documents the store writes carry no opaque numbers: they are well
/// formed outright.
proof fn lemma_json_of_node_wf(n: NodeView)
    ensures
        crate::json::wf_json(json_of_node(n)),
    decreases n, 0int,
{
    let fields = json_of_node(n)->Obj_0;
    match n.children {
        None => {
            assert forall|i: int| 0 <= i < fields.len() implies crate::json::wf_json(
                (#[trigger] fields[i]).1,
            ) by {
                assert(fields + Seq::<(Seq<char>, JsonV)>::empty() =~= fields);
            }
        },
        Some(cs) => {
            lemma_json_of_nodes_wf(cs);
            assert forall|i: int| 0 <= i < fields.len() implies crate::json::wf_json(
                (#[trigger] fields[i]).1,
            ) by {
                if i == 5 {
                    assert(fields[5].1 == JsonV::Arr(json_of_nodes(cs)));
                }
            }
        },
    }
}

proof fn lemma_json_of_nodes_wf(cs: Seq<NodeView>)
    ensures
        forall|i: int|
            0 <= i < json_of_nodes(cs).len() ==> crate::json::wf_json(
                #[trigger] json_of_nodes(cs)[i],
            ),
    decreases cs, 1int,
{
    if cs.len() > 0 {
        lemma_json_of_node_wf(cs[0]);
        lemma_json_of_nodes_wf(cs.skip(1));
        let js = json_of_nodes(cs);
        assert forall|i: int| 0 <= i < js.len() implies crate::json::wf_json(
            #[trigger] js[i],
        ) by {
            if i == 0 {
                assert(js[0] == json_of_node(cs[0]));
            } else {
                assert(js[i] == json_of_nodes(cs.skip(1))[i - 1]);
            }
        }
    }
}

proof fn lemma_json_of_record_wf(r: RecordView)
    ensures
        crate::json::wf_json(json_of_record(r)),
{
    lemma_json_of_node_wf(r.tree);
    let fields = json_of_record(r)->Obj_0;
    assert forall|i: int| 0 <= i < fields.len() implies crate::json::wf_json(
        (#[trigger] fields[i]).1,
    ) by {
        if i == 3 {
            assert(fields[3].1 == json_of_node(r.tree));
        }
    }
}

proof fn lemma_nodes_json_round_trip(cs: Seq<NodeView>)
    ensures
        nodes_of_jsons(json_of_nodes(cs)) == Some(cs),
    decreases cs,
{
    if cs.len() == 0 {
        assert(nodes_of_jsons(json_of_nodes(cs)) == Some(Seq::<NodeView>::empty()));
        assert(Seq::<NodeView>::empty() =~= cs);
    } else {
        lemma_node_json_round_trip(cs[0]);
        lemma_nodes_json_round_trip(cs.skip(1));
        let js = json_of_nodes(cs);
        assert(js[0] == json_of_node(cs[0]));
        assert(js.skip(1) =~= json_of_nodes(cs.skip(1)));
        assert(seq![cs[0]] + cs.skip(1) =~= cs);
    }
}

proof fn lemma_node_keys_distinct()
    ensures
        "path"@ != "name"@,
        "path"@ != "is_dir"@,
        "path"@ != "size"@,
        "path"@ != "modified"@,
        "path"@ != "children"@,
        "name"@ != "is_dir"@,
        "name"@ != "size"@,
        "name"@ != "modified"@,
        "name"@ != "children"@,
        "is_dir"@ != "size"@,
        "is_dir"@ != "modified"@,
        "is_dir"@ != "children"@,
        "size"@ != "modified"@,
        "size"@ != "children"@,
        "modified"@ != "children"@,
{
    reveal_strlit("path");
    reveal_strlit("name");
    reveal_strlit("is_dir");
    reveal_strlit("size");
    reveal_strlit("modified");
    reveal_strlit("children");
    assert("path"@[0] == 'p');
    assert("name"@[0] == 'n');
    assert("is_dir"@[0] == 'i');
    assert("size"@[0] == 's');
    assert("modified"@[0] == 'm');
    assert("children"@[0] == 'c');
}

proof fn lemma_node_json_round_trip(n: NodeView)
    ensures
        node_of_json(json_of_node(n)) == Some(n),
    decreases n,
{
    lemma_node_keys_distinct();
    let base = seq![
        ("path"@, JsonV::Str(n.path)),
        ("name"@, JsonV::Str(n.name)),
        ("is_dir"@, JsonV::Bool(n.is_dir)),
        ("size"@, JsonV::Num(n.size)),
        ("modified"@, JsonV::Num(n.modified)),
    ];
    match n.children {
        None => {
            let f = base + Seq::<(Seq<char>, JsonV)>::empty();
            assert(f =~= base);
            assert(json_of_node(n) == JsonV::Obj(f));
            crate::json::lemma_field_index_at(f, "path"@, 0);
            crate::json::lemma_field_index_at(f, "name"@, 1);
            crate::json::lemma_field_index_at(f, "is_dir"@, 2);
            crate::json::lemma_field_index_at(f, "size"@, 3);
            crate::json::lemma_field_index_at(f, "modified"@, 4);
            crate::json::lemma_field_index_absent(f, "children"@);
        },
        Some(cs) => {
            lemma_nodes_json_round_trip(cs);
            let f = base + seq![("children"@, JsonV::Arr(json_of_nodes(cs)))];
            assert(json_of_node(n) == JsonV::Obj(f));
            assert(f.len() == 6);
            assert(f[0] == base[0] && f[1] == base[1] && f[2] == base[2] && f[3] == base[3] && f[4]
                == base[4]);
            assert(f[5] == ("children"@, JsonV::Arr(json_of_nodes(cs))));
            crate::json::lemma_field_index_at(f, "path"@, 0);
            crate::json::lemma_field_index_at(f, "name"@, 1);
            crate::json::lemma_field_index_at(f, "is_dir"@, 2);
            crate::json::lemma_field_index_at(f, "size"@, 3);
            crate::json::lemma_field_index_at(f, "modified"@, 4);
            crate::json::lemma_field_index_at(f, "children"@, 5);
        },
    }
}

proof fn lemma_record_keys_distinct()
    ensures
        "datetime"@ != "device"@,
        "datetime"@ != "data_hex"@,
        "datetime"@ != "fs_repr"@,
        "device"@ != "data_hex"@,
        "device"@ != "fs_repr"@,
        "data_hex"@ != "fs_repr"@,
{
    reveal_strlit("datetime");
    reveal_strlit("device");
    reveal_strlit("data_hex");
    reveal_strlit("fs_repr");
    assert("datetime"@[0] == 'd' && "datetime"@[1] == 'a' && "datetime"@[3] == 'e');
    assert("device"@[0] == 'd' && "device"@[1] == 'e');
    assert("data_hex"@[0] == 'd' && "data_hex"@[1] == 'a' && "data_hex"@[3] == 'a');
    assert("fs_repr"@[0] == 'f');
}

/// Round-trip law of the record codec at the JSON level.
proof fn lemma_record_json_round_trip(r: RecordView)
    ensures
        record_of_json(json_of_record(r)) == Some(r),
{
    lemma_node_json_round_trip(r.tree);
    lemma_record_keys_distinct();
    let f = seq![
        ("datetime"@, JsonV::Str(r.datetime)),
        ("device"@, JsonV::Str(r.device)),
        ("data_hex"@, JsonV::Str(r.data_hex)),
        ("fs_repr"@, json_of_node(r.tree)),
    ];
    assert(json_of_record(r) == JsonV::Obj(f));
    crate::json::lemma_field_index_at(f, "datetime"@, 0);
    crate::json::lemma_field_index_at(f, "device"@, 1);
    crate::json::lemma_field_index_at(f, "data_hex"@, 2);
    crate::json::lemma_field_index_at(f, "fs_repr"@, 3);
}

/// The round-trip law of the store: the text that `encode_record` writes
/// for a record decodes to that record, tree and all, for every record.
pub proof fn lemma_record_round_trip(r: RecordView)
    ensures
        spec_decode_record(spec_encode_record(r)) == Some(r),
{
    lemma_json_of_record_wf(r);
    lemma_json_round_trip(json_of_record(r));
    lemma_record_json_round_trip(r);
}

fn json_of_nodes_x(cs: &Vec<FsNode>) -> (r: Vec<Json>)
    ensures
        view_items(r@) == json_of_nodes(view_nodes(cs@)),
    decreases cs@,
{
    broadcast use lemma_view_items_len, lemma_view_items_index, lemma_view_nodes_len,
        lemma_view_nodes_index;

    let mut out: Vec<Json> = Vec::new();
    let mut i: usize = 0;
    proof {
        assert(view_nodes(cs@.subrange(0, 0)) =~= Seq::<NodeView>::empty());
        assert(view_items(out@) =~= json_of_nodes(view_nodes(cs@.subrange(0, 0))));
    }
    while i < cs.len()
        invariant
            i <= cs@.len(),
            view_items(out@) == json_of_nodes(view_nodes(cs@.subrange(0, i as int))),
        decreases cs@.len() - i,
    {
        proof {
            assert(decreases_to!(cs@ => cs@[i as int]));
        }
        let j = json_of_node_x(&cs[i]);
        let ghost old_out = out@;
        out.push(j);
        proof {
            let pre = cs@.subrange(0, i as int);
            let cur = cs@.subrange(0, i + 1 as int);
            assert(cur =~= pre.push(cs@[i as int]));
            lemma_view_nodes_snoc(pre, cs@[i as int]);
            lemma_json_of_nodes_snoc(view_nodes(pre), view_node(cs@[i as int]));
            assert(out@ == old_out.push(j));
            lemma_view_items_snoc(old_out, j);
            assert(view_items(out@) =~= json_of_nodes(view_nodes(cur)));
        }
        i += 1;
    }
    proof {
        assert(cs@.subrange(0, cs@.len() as int) =~= cs@);
    }
    out
}

proof fn lemma_view_items_snoc(items: Seq<Json>, j: Json)
    ensures
        view_items(items.push(j)) == view_items(items).push(view_json(j)),
{
    broadcast use lemma_view_items_len, lemma_view_items_index;

    assert(view_items(items.push(j)) =~= view_items(items).push(view_json(j)));
}

proof fn lemma_json_of_nodes_snoc(cs: Seq<NodeView>, c: NodeView)
    ensures
        json_of_nodes(cs.push(c)) == json_of_nodes(cs).push(json_of_node(c)),
    decreases cs.len(),
{
    if cs.len() == 0 {
        assert(cs.push(c)[0] == c);
        assert(cs.push(c).skip(1) =~= Seq::<NodeView>::empty());
        assert(json_of_nodes(cs.push(c).skip(1)) == Seq::<JsonV>::empty());
        assert(json_of_nodes(cs) == Seq::<JsonV>::empty());
        assert(seq![json_of_node(c)] + Seq::<JsonV>::empty() =~= Seq::<JsonV>::empty().push(
            json_of_node(c),
        ));
    } else {
        assert(cs.push(c)[0] == cs[0]);
        assert(cs.push(c).skip(1) =~= cs.skip(1).push(c));
        lemma_json_of_nodes_snoc(cs.skip(1), c);
        assert(json_of_nodes(cs) == seq![json_of_node(cs[0])] + json_of_nodes(cs.skip(1)));
        assert(seq![json_of_node(cs[0])] + json_of_nodes(cs.skip(1)).push(json_of_node(c)) =~= (
        seq![json_of_node(cs[0])] + json_of_nodes(cs.skip(1))).push(json_of_node(c)));
    }
}

/// The JSON document for one tree entry.
fn json_of_node_x(n: &FsNode) -> (r: Json)
    ensures
        view_json(r) == json_of_node(view_node(*n)),
    decreases *n,
{
    broadcast use lemma_view_fields_len, lemma_view_fields_index;

    let mut fields: Vec<JField> = Vec::new();
    fields.push(JField { key: String::from_str("path"), val: Json::Str(n.path.clone()) });
    fields.push(JField { key: String::from_str("name"), val: Json::Str(n.name.clone()) });
    fields.push(JField { key: String::from_str("is_dir"), val: Json::Bool(n.is_dir) });
    fields.push(JField { key: String::from_str("size"), val: Json::Num(n.size) });
    fields.push(JField { key: String::from_str("modified"), val: Json::Num(n.modified) });
    match &n.children {
        None => {
            let r = Json::Obj(fields);
            proof {
                let nv = view_node(*n);
                let spec_fields = seq![
                    ("path"@, JsonV::Str(nv.path)),
                    ("name"@, JsonV::Str(nv.name)),
                    ("is_dir"@, JsonV::Bool(nv.is_dir)),
                    ("size"@, JsonV::Num(nv.size)),
                    ("modified"@, JsonV::Num(nv.modified)),
                ];
                assert(spec_fields + Seq::<(Seq<char>, JsonV)>::empty() =~= spec_fields);
                assert(view_fields(fields@) =~= spec_fields);
            }
            r
        },
        Some(cs) => {
            proof {
                assert(decreases_to!(*n => *cs));
                assert(decreases_to!(*cs => cs@));
            }
            let items = json_of_nodes_x(cs);
            fields.push(
                JField { key: String::from_str("children"), val: Json::Arr(items) },
            );
            let r = Json::Obj(fields);
            proof {
                let nv = view_node(*n);
                let spec_fields = seq![
                    ("path"@, JsonV::Str(nv.path)),
                    ("name"@, JsonV::Str(nv.name)),
                    ("is_dir"@, JsonV::Bool(nv.is_dir)),
                    ("size"@, JsonV::Num(nv.size)),
                    ("modified"@, JsonV::Num(nv.modified)),
                ] + seq![("children"@, JsonV::Arr(json_of_nodes(nv.children->Some_0)))];
                assert(view_fields(fields@) =~= spec_fields);
            }
            r
        },
    }
}

fn nodes_of_json_x(items: &Vec<Json>, i: usize) -> (r: Option<Vec<FsNode>>)
    requires
        i <= items@.len(),
    ensures
        ({
            let s = view_items(items@).skip(i as int);
            match (r, nodes_of_jsons(s)) {
                (Some(ns), Some(nvs)) => view_nodes(ns@) == nvs,
                (None, None) => true,
                _ => false,
            }
        }),
    decreases items@.skip(i as int),
{
    broadcast use lemma_view_items_len, lemma_view_items_index, lemma_view_nodes_len,
        lemma_view_nodes_index;

    let ghost s = view_items(items@).skip(i as int);
    if i == items.len() {
        proof {
            assert(s =~= Seq::<JsonV>::empty());
            assert(view_nodes(Seq::<FsNode>::empty()) =~= Seq::<NodeView>::empty());
        }
        return Some(Vec::new());
    }
    proof {
        assert(items@.skip(i as int)[0] == items@[i as int]);
        assert(decreases_to!(items@.skip(i as int) => items@[i as int]));
        assert(s[0] == view_json(items@[i as int]));
        assert(s.skip(1) =~= view_items(items@).skip(i + 1 as int));
        assert(items@.skip(i + 1 as int) == items@.skip(i as int).subrange(
            1,
            items@.skip(i as int).len() as int,
        )) by {
            assert(items@.skip(i + 1 as int) =~= items@.skip(i as int).subrange(
                1,
                items@.skip(i as int).len() as int,
            ));
        }
    }
    match node_of_json_x(&items[i]) {
        None => None,
        Some(n0) => {
            match nodes_of_json_x(items, i + 1) {
                None => None,
                Some(mut rest) => {
                    let ghost rest_seq = rest@;
                    let mut out: Vec<FsNode> = Vec::new();
                    out.push(n0);
                    out.append(&mut rest);
                    proof {
                        assert(out@ == seq![out@[0]] + rest_seq);
                        assert(out@.skip(1) =~= rest_seq);
                        assert(view_nodes(out@) =~= seq![view_node(out@[0])] + view_nodes(
                            rest_seq,
                        ));
                    }
                    Some(out)
                },
            }
        },
    }
}

fn node_of_json_x(j: &Json) -> (r: Option<FsNode>)
    ensures
        ({
            match (r, node_of_json(view_json(*j))) {
                (Some(n), Some(nv)) => view_node(n) == nv,
                (None, None) => true,
                _ => false,
            }
        }),
    decreases *j,
{
    match j {
        Json::Obj(fields) => {
            let ghost vf = view_fields(fields@);
            let pi = match find_field(fields, &String::from_str("path")) {
                Some(i) => i,
                None => {
                    return None;
                },
            };
            let ni = match find_field(fields, &String::from_str("name")) {
                Some(i) => i,
                None => {
                    return None;
                },
            };
            let di = match find_field(fields, &String::from_str("is_dir")) {
                Some(i) => i,
                None => {
                    return None;
                },
            };
            let si = match find_field(fields, &String::from_str("size")) {
                Some(i) => i,
                None => {
                    return None;
                },
            };
            let mi = match find_field(fields, &String::from_str("modified")) {
                Some(i) => i,
                None => {
                    return None;
                },
            };
            proof {
                lemma_view_fields_len(fields@);
                lemma_view_fields_index(fields@, pi as int);
                lemma_view_fields_index(fields@, ni as int);
                lemma_view_fields_index(fields@, di as int);
                lemma_view_fields_index(fields@, si as int);
                lemma_view_fields_index(fields@, mi as int);
            }
            let path: String = match &fields[pi].val {
                Json::Str(t) => t.clone(),
                _ => {
                    return None;
                },
            };
            let name: String = match &fields[ni].val {
                Json::Str(t) => t.clone(),
                _ => {
                    return None;
                },
            };
            let is_dir: bool = match &fields[di].val {
                Json::Bool(b) => *b,
                _ => {
                    return None;
                },
            };
            let size: u64 = match &fields[si].val {
                Json::Num(x) => *x,
                _ => {
                    return None;
                },
            };
            let modified: u64 = match &fields[mi].val {
                Json::Num(x) => *x,
                _ => {
                    return None;
                },
            };
            match find_field(fields, &String::from_str("children")) {
                None => Some(FsNode { path, name, is_dir, size, modified, children: None }),
                Some(ci) => {
                    proof {
                        lemma_view_fields_index(fields@, ci as int);
                    }
                    match &fields[ci].val {
                        Json::Null => Some(
                            FsNode { path, name, is_dir, size, modified, children: None },
                        ),
                        Json::Arr(items) => {
                            proof {
                                assert(decreases_to!(*j => fields@));
                                assert(decreases_to!(fields@ => fields@[ci as int]));
                                assert(decreases_to!(fields@[ci as int] => fields@[
                                    ci as int
                                ].val));
                                assert(decreases_to!(fields@[ci as int].val => items@));
                                assert(items@.skip(0) =~= items@);
                                assert(view_items(items@).skip(0) =~= view_items(items@));
                            }
                            match nodes_of_json_x(items, 0) {
                                Some(cs) => Some(
                                    FsNode {
                                        path,
                                        name,
                                        is_dir,
                                        size,
                                        modified,
                                        children: Some(cs),
                                    },
                                ),
                                None => None,
                            }
                        },
                        _ => None,
                    }
                },
            }
        },
        _ => None,
    }
}

/// The text that `save` writes for a record: one canonical JSON document.
pub fn encode_record(rec: &SnapshotRecord) -> (r: String)
    ensures
        r@ == spec_encode_record(view_record(*rec)),
{
    broadcast use lemma_view_fields_len, lemma_view_fields_index;

    let mut fields: Vec<JField> = Vec::new();
    fields.push(
        JField { key: String::from_str("datetime"), val: Json::Str(rec.datetime.clone()) },
    );
    fields.push(JField { key: String::from_str("device"), val: Json::Str(rec.device.clone()) });
    fields.push(
        JField { key: String::from_str("data_hex"), val: Json::Str(rec.data_hex.clone()) },
    );
    fields.push(JField { key: String::from_str("fs_repr"), val: json_of_node_x(&rec.tree) });
    let doc = Json::Obj(fields);
    proof {
        let rv = view_record(*rec);
        let spec_fields = seq![
            ("datetime"@, JsonV::Str(rv.datetime)),
            ("device"@, JsonV::Str(rv.device)),
            ("data_hex"@, JsonV::Str(rv.data_hex)),
            ("fs_repr"@, json_of_node(rv.tree)),
        ];
        assert(view_fields(fields@) =~= spec_fields);
    }
    write_json(&doc)
}

/// Reads a record out of stored content. Fails exactly on content that is
/// not a well-formed record document.
pub fn decode_record(s: &str) -> (r: Result<SnapshotRecord, ParseError>)
    ensures
        match r {
            Ok(rec) => spec_decode_record(s@) == Some(view_record(rec)),
            Err(_) => spec_decode_record(s@) is None,
        },
{
    let doc = match parse_json(s) {
        None => {
            return Err(ParseError {});
        },
        Some(doc) => doc,
    };
    match &doc {
        Json::Obj(fields) => {
            let ti = match find_field(fields, &String::from_str("datetime")) {
                Some(i) => i,
                None => {
                    return Err(ParseError {});
                },
            };
            let vi = match find_field(fields, &String::from_str("device")) {
                Some(i) => i,
                None => {
                    return Err(ParseError {});
                },
            };
            let hi = match find_field(fields, &String::from_str("data_hex")) {
                Some(i) => i,
                None => {
                    return Err(ParseError {});
                },
            };
            let ri = match find_field(fields, &String::from_str("fs_repr")) {
                Some(i) => i,
                None => {
                    return Err(ParseError {});
                },
            };
            proof {
                lemma_view_fields_len(fields@);
                lemma_view_fields_index(fields@, ti as int);
                lemma_view_fields_index(fields@, vi as int);
                lemma_view_fields_index(fields@, hi as int);
                lemma_view_fields_index(fields@, ri as int);
            }
            let datetime: String = match &fields[ti].val {
                Json::Str(t) => t.clone(),
                _ => {
                    return Err(ParseError {});
                },
            };
            let device: String = match &fields[vi].val {
                Json::Str(t) => t.clone(),
                _ => {
                    return Err(ParseError {});
                },
            };
            let data_hex: String = match &fields[hi].val {
                Json::Str(t) => t.clone(),
                _ => {
                    return Err(ParseError {});
                },
            };
            match node_of_json_x(&fields[ri].val) {
                Some(tree) => Ok(SnapshotRecord { datetime, device, data_hex, tree }),
                None => Err(ParseError {}),
            }
        },
        _ => Err(ParseError {}),
    }
}

/// What `load` returns for the store's content: `Ok(None)` when nothing
/// was ever saved, the decoded record when the content is well formed, and
/// `ParseError` otherwise.
pub fn load_record(content: Option<&str>) -> (r: Result<Option<SnapshotRecord>, ParseError>)
    ensures
        content is None ==> r == Ok::<Option<SnapshotRecord>, ParseError>(None),
        match content {
            None => true,
            Some(s) => match r {
                Ok(Some(rec)) => spec_decode_record(s@) == Some(view_record(rec)),
                Ok(None) => false,
                Err(_) => spec_decode_record(s@) is None,
            },
        },
{
    match content {
        None => Ok(None),
        Some(s) => match decode_record(s) {
            Ok(rec) => Ok(Some(rec)),
            Err(e) => Err(e),
        },
    }
}

/// What a stored tree document denotes, if anything.
pub open spec fn spec_decode_node(s: Seq<char>) -> Option<NodeView> {
    match spec_json_of(s) {
        Some(j) => node_of_json(j),
        None => None,
    }
}

/// The text of one tree on its own, as the remote capture prints it.
pub fn encode_node(n: &FsNode) -> (r: String)
    ensures
        r@ == enc_json(json_of_node(view_node(*n))),
{
    let doc = json_of_node_x(n);
    write_json(&doc)
}

/// Reads a tree out of text that a capture printed. Fails exactly on text
/// that is not a well-formed tree document.
pub fn decode_node(s: &str) -> (r: Result<FsNode, ParseError>)
    ensures
        match r {
            Ok(n) => spec_decode_node(s@) == Some(view_node(n)),
            Err(_) => spec_decode_node(s@) is None,
        },
{
    match parse_json(s) {
        None => Err(ParseError {}),
        Some(doc) => match node_of_json_x(&doc) {
            Some(n) => Ok(n),
            None => Err(ParseError {}),
        },
    }
}

/// The tree of a saved text comes back unchanged: the node codec inverts.
pub proof fn lemma_node_round_trip(n: NodeView)
    ensures
        spec_decode_node(enc_json(json_of_node(n))) == Some(n),
{
    lemma_json_of_node_wf(n);
    lemma_json_round_trip(json_of_node(n));
    lemma_node_json_round_trip(n);
}

/// Where the store lives under the user's home directory.
pub fn store_relative_path() -> (r: String)
    ensures
        r@ == "scaner_file_sistem/mapeamento_remoto.json"@,
{
    String::from_str("scaner_file_sistem/mapeamento_remoto.json")
}

/// One fixed-width piece of an RFC 3339 timestamp: a separator at `i`
/// followed by two digits.
pub open spec fn sep_two_digits(s: Seq<char>, i: int, sep: char) -> bool {
    s[i] == sep && is_digit(s[i + 1]) && is_digit(s[i + 2])
}

/// One reading of `s` as an RFC 3339 timestamp in UTC: a year of `y`
/// characters, the fixed-width date and time, a subsecond fraction of `f`
/// characters, and the zero offset.
pub open spec fn rfc3339_parts(s: Seq<char>, y: int, f: int) -> bool {
    &&& s.len() == y + 15 + f + 6
    &&& 4 <= y
    &&& (if y == 4 {
        forall|i: int| 0 <= i < 4 ==> is_digit(s[i])
    } else {
        (s[0] == '+' || s[0] == '-') && forall|i: int| 1 <= i < y ==> is_digit(s[i])
    })
    &&& sep_two_digits(s, y, '-')
    &&& sep_two_digits(s, y + 3, '-')
    &&& sep_two_digits(s, y + 6, 'T')
    &&& sep_two_digits(s, y + 9, ':')
    &&& sep_two_digits(s, y + 12, ':')
    &&& (f == 0 || f == 4 || f == 7 || f == 10)
    &&& (f > 0 ==> s[y + 15] == '.' && forall|i: int| y + 16 <= i < y + 15 + f ==> is_digit(s[i]))
    &&& s.skip(s.len() - 6) == "+00:00"@
}

/// The shape of every timestamp the store writes: an RFC 3339 date and
/// time with the zero offset. The year has four digits, or a sign and at
/// least four digits outside that range; the fraction is absent or holds
/// three, six or nine digits.
pub open spec fn is_rfc3339_utc(s: Seq<char>) -> bool {
    exists|y: int, f: int| rfc3339_parts(s, y, f)
}

/// Relies on chrono's `Utc::now` and `DateTime::to_rfc3339`: the moment of
/// the call rendered as an RFC 3339 timestamp with the zero offset. Which
/// moment comes back depends on the clock, but every outcome has that
/// shape: a four-digit year (signed and wider outside 0..=9999), paired
/// digits for month, day, hour, minute and second with their separators, a
/// fraction of three, six or nine digits when the nanoseconds are not
/// zero, and `+00:00`.
#[verifier::external_body]
fn now_rfc3339() -> (r: String)
    ensures
        is_rfc3339_utc(r@),
{
    chrono::Utc::now().to_rfc3339()
}

/// A record for a fresh capture: the label and payload as given, the tree
/// as built, and the moment of the call, in RFC 3339 form, as its
/// timestamp.
pub fn make_record(device: &str, data_hex: &str, tree: FsNode) -> (r: SnapshotRecord)
    ensures
        view_record(r).device == device@,
        view_record(r).data_hex == data_hex@,
        view_record(r).tree == view_node(tree),
        is_rfc3339_utc(view_record(r).datetime),
{
    SnapshotRecord {
        datetime: now_rfc3339(),
        device: device.to_owned(),
        data_hex: data_hex.to_owned(),
        tree,
    }
}

} // verus!
