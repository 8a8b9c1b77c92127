use vm_map::diff::diff;
use vm_map::tree::{dir_node, leaf_node, list_candidates, FsNode};

fn sample_old() -> FsNode {
    let a = leaf_node("root/a.txt".to_string(), "a.txt".to_string(), 12, 100);
    let b = leaf_node("root/sub/b.pdf".to_string(), "b.pdf".to_string(), 34, 50);
    let sub = dir_node("root/sub".to_string(), "sub".to_string(), 40, vec![b]);
    dir_node("root".to_string(), "root".to_string(), 10, vec![a, sub])
}

fn sample_new() -> FsNode {
    let a = leaf_node("root/a.txt".to_string(), "a.txt".to_string(), 12, 200);
    let sub = dir_node("root/sub".to_string(), "sub".to_string(), 40, vec![]);
    let c = leaf_node("root/c.txt".to_string(), "c.txt".to_string(), 7, 300);
    dir_node("root".to_string(), "root".to_string(), 10, vec![a, sub, c])
}

#[test]
fn three_way_drift() {
    let report = diff(&sample_old(), &sample_new());
    assert_eq!(report.removed, vec!["root/sub/b.pdf".to_string()]);
    assert_eq!(report.added, vec!["root/c.txt".to_string()]);
    assert_eq!(report.modified, vec![("root/a.txt".to_string(), 100, 200)]);
}

#[test]
fn self_drift_is_empty() {
    let t = sample_old();
    let report = diff(&t, &t);
    assert!(report.added.is_empty());
    assert!(report.removed.is_empty());
    assert!(report.modified.is_empty());
}

#[test]
fn empty_old_tree_reports_all_added() {
    let old = dir_node("root".to_string(), "root".to_string(), 10, vec![]);
    let report = diff(&old, &sample_old());
    assert_eq!(
        report.added,
        vec![
            "root/a.txt".to_string(),
            "root/sub".to_string(),
            "root/sub/b.pdf".to_string()
        ]
    );
    assert!(report.removed.is_empty());
    assert!(report.modified.is_empty());
}

#[test]
fn duplicate_child_names_are_dropped() {
    let x1 = leaf_node("d/x".to_string(), "x".to_string(), 1, 1);
    let x2 = leaf_node("d/x".to_string(), "x".to_string(), 2, 2);
    let y = leaf_node("d/y".to_string(), "y".to_string(), 3, 3);
    let d = dir_node("d".to_string(), "d".to_string(), 9, vec![x1, x2, y]);
    let cs = d.children.as_ref().unwrap();
    assert_eq!(cs.len(), 2);
    assert_eq!(cs[0].name, "x");
    assert_eq!(cs[0].modified, 1);
    assert_eq!(cs[1].name, "y");
}

#[test]
fn directory_entry_shape() {
    let d = dir_node("d".to_string(), "d".to_string(), 77, vec![]);
    assert!(d.is_dir);
    assert_eq!(d.size, 0);
    assert_eq!(d.modified, 77);
    assert!(d.children.as_ref().unwrap().is_empty());
    let f = leaf_node("f".to_string(), "f".to_string(), 5, 6);
    assert!(!f.is_dir);
    assert_eq!(f.size, 5);
    assert!(f.children.is_none());
}

#[test]
fn candidates_case_insensitive() {
    let a = leaf_node("docs/A.PDF".to_string(), "A.PDF".to_string(), 1, 1);
    let b = leaf_node("docs/b.pdf".to_string(), "b.pdf".to_string(), 2, 2);
    let c = leaf_node("docs/readme.txt".to_string(), "readme.txt".to_string(), 3, 3);
    let d = dir_node("docs".to_string(), "docs".to_string(), 4, vec![a, b, c]);
    let found = list_candidates(&d);
    assert_eq!(
        found,
        vec!["docs/A.PDF".to_string(), "docs/b.pdf".to_string()]
    );
}

#[test]
fn candidates_depth_first_order() {
    let deep = leaf_node("r/s/x.Pdf".to_string(), "x.Pdf".to_string(), 1, 1);
    let sub = dir_node("r/s".to_string(), "s".to_string(), 2, vec![deep]);
    let top = leaf_node("r/top.pdf".to_string(), "top.pdf".to_string(), 3, 3);
    let r = dir_node("r".to_string(), "r".to_string(), 4, vec![sub, top]);
    let found = list_candidates(&r);
    assert_eq!(found, vec!["r/s/x.Pdf".to_string(), "r/top.pdf".to_string()]);
}

#[test]
fn nested_duplicate_names_kept_per_directory() {
    // One name per directory is the rule; the same name may recur in
    // different directories.
    let inner = dir_node(
        "r/x".to_string(),
        "x".to_string(),
        1,
        vec![leaf_node("r/x/x".to_string(), "x".to_string(), 1, 1)],
    );
    let root = dir_node("r".to_string(), "r".to_string(), 2, vec![inner]);
    let cs = root.children.as_ref().unwrap();
    assert_eq!(cs.len(), 1);
    assert_eq!(cs[0].children.as_ref().unwrap().len(), 1);
}
