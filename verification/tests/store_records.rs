use vm_map::ext4::Ext4Fs;
use vm_map::get_folder_to_monitor;
use vm_map::store::{
    decode_node, decode_record, encode_node, encode_record, load_record, make_record,
    SnapshotRecord,
};
use vm_map::tree::{dir_node, leaf_node, FsNode};

fn same_tree(a: &FsNode, b: &FsNode) -> bool {
    if a.path != b.path
        || a.name != b.name
        || a.is_dir != b.is_dir
        || a.size != b.size
        || a.modified != b.modified
    {
        return false;
    }
    match (&a.children, &b.children) {
        (None, None) => true,
        (Some(ca), Some(cb)) => {
            ca.len() == cb.len() && ca.iter().zip(cb.iter()).all(|(x, y)| same_tree(x, y))
        }
        _ => false,
    }
}

fn sample_tree() -> FsNode {
    let a = leaf_node("root/a.txt".to_string(), "a.txt".to_string(), 12, 100);
    let b = leaf_node("root/sub/b.pdf".to_string(), "b.pdf".to_string(), 34, 50);
    let sub = dir_node("root/sub".to_string(), "sub".to_string(), 40, vec![b]);
    dir_node("root".to_string(), "root".to_string(), 10, vec![a, sub])
}

#[test]
fn load_without_prior_save_is_none() {
    match load_record(None) {
        Ok(None) => {}
        _ => panic!("an empty store must load as None, not as an error"),
    }
}

#[test]
fn save_then_load_round_trip() {
    let rec = make_record("~", "", sample_tree());
    let text = encode_record(&rec);
    let back = load_record(Some(text.as_str()))
        .expect("well-formed content must load")
        .expect("content was present");
    assert_eq!(back.device, "~");
    assert_eq!(back.data_hex, "");
    assert_eq!(back.datetime, rec.datetime);
    assert!(same_tree(&back.tree, &rec.tree));
}

#[test]
fn encode_record_exact_text() {
    let rec = SnapshotRecord {
        datetime: "2024-01-01T00:00:00+00:00".to_string(),
        device: "~".to_string(),
        data_hex: "".to_string(),
        tree: leaf_node("f.txt".to_string(), "f.txt".to_string(), 3, 7),
    };
    assert_eq!(
        encode_record(&rec),
        "{\"datetime\":\"2024-01-01T00:00:00+00:00\",\"device\":\"~\",\"data_hex\":\"\",\
         \"fs_repr\":{\"path\":\"f.txt\",\"name\":\"f.txt\",\"is_dir\":false,\"size\":3,\
         \"modified\":7}}"
    );
}

#[test]
fn decode_rejects_malformed_content() {
    assert!(decode_record("").is_err());
    assert!(decode_record("not json at all").is_err());
    assert!(decode_record("[1,2,3]").is_err());
    assert!(decode_record("{\"datetime\":\"x\"}").is_err());
    assert!(decode_record(
        "{\"datetime\":\"x\",\"device\":\"y\",\"data_hex\":\"\",\"fs_repr\":{\"path\":\"p\"}}"
    )
    .is_err());
}

#[test]
fn decode_tolerates_whitespace() {
    let rec = make_record("dev", "aa", sample_tree());
    let text = format!(" \n {} \t", encode_record(&rec));
    let back = decode_record(&text).expect("whitespace around the document is fine");
    assert!(same_tree(&back.tree, &rec.tree));
}

#[test]
fn node_codec_round_trip() {
    let t = sample_tree();
    let text = encode_node(&t);
    let back = decode_node(&text).expect("a written tree reads back");
    assert!(same_tree(&back, &t));
    assert!(decode_node("{\"path\":1}").is_err());
}

#[test]
fn decode_accepts_any_field_order() {
    let text = "{\"fs_repr\":{\"modified\":7,\"name\":\"f.txt\",\"size\":3,\"is_dir\":false,\
                \"path\":\"f.txt\"},\"data_hex\":\"\",\"device\":\"~\",\"datetime\":\"x\"}";
    let rec = decode_record(text).expect("field order does not matter");
    assert_eq!(rec.device, "~");
    assert_eq!(rec.datetime, "x");
    assert!(same_tree(
        &rec.tree,
        &leaf_node("f.txt".to_string(), "f.txt".to_string(), 3, 7)
    ));
}

#[test]
fn decode_ignores_unknown_fields_and_null_children() {
    let text = "{\"datetime\":\"x\",\"extra\":1,\"device\":\"~\",\"data_hex\":\"\",\
                \"fs_repr\":{\"path\":\"f\",\"name\":\"f\",\"is_dir\":false,\"size\":1,\
                \"modified\":2,\"children\":null,\"note\":\"y\"}}";
    let rec = decode_record(text).expect("unknown fields are ignored");
    assert!(rec.tree.children.is_none());
    assert_eq!(rec.tree.name, "f");
}

#[test]
fn monitored_folder_is_fixed() {
    assert_eq!(get_folder_to_monitor(), "C:\\Users\\Public");
}

#[test]
fn hex_dump_blank_is_none() {
    assert!(Ext4Fs::from_hex_dump("").is_none());
    assert!(Ext4Fs::from_hex_dump(" \t\n ").is_none());
}

#[test]
fn hex_dump_nonblank_yields_scaffold() {
    let fs = Ext4Fs::from_hex_dump("deadbeef").expect("non-blank dump parses");
    assert_eq!(fs.superblock.inodes_count, 1);
    assert_eq!(fs.superblock.blocks_count, 1);
    assert_eq!(fs.superblock.block_size, 4096);
    assert_eq!(fs.superblock.volume_name, "ExemploFS");
    assert_eq!(fs.root.inode_num, 2);
    assert_eq!(fs.root.file_type, "dir");
    assert_eq!(fs.root.name, "/");
    assert_eq!(fs.root.children.len(), 2);
    assert_eq!(fs.root.children[0].name, "documento.pdf");
    assert_eq!(fs.root.children[0].file_type, "file");
    assert_eq!(fs.root.children[0].size, 12345);
    assert_eq!(fs.root.children[1].name, "subpasta");
}
