use vm_map::diff::{diff, DriftReport};
use vm_map::render::{render_report, render_tree};
use vm_map::tree::{dir_node, leaf_node};

#[test]
fn tree_listing_shape() {
    let a = leaf_node("r/a.pdf".to_string(), "a.pdf".to_string(), 5, 11);
    let deep = leaf_node("r/s/d.txt".to_string(), "d.txt".to_string(), 1, 2);
    let sub = dir_node("r/s".to_string(), "s".to_string(), 9, vec![deep]);
    let root = dir_node("r".to_string(), "r".to_string(), 7, vec![a, sub]);
    assert_eq!(
        render_tree(&root),
        "[DIR] r (0 bytes, modificado: 7)\n\
         |-- [PDF] a.pdf (5 bytes, modificado: 11)\n\
         `-- [DIR] s (0 bytes, modificado: 9)\n\
         |   `-- [ARQ] d.txt (1 bytes, modificado: 2)\n"
    );
}

#[test]
fn report_text_lines() {
    let old = dir_node(
        "r".to_string(),
        "r".to_string(),
        1,
        vec![
            leaf_node("r/x".to_string(), "x".to_string(), 1, 10),
            leaf_node("r/y".to_string(), "y".to_string(), 1, 20),
        ],
    );
    let new = dir_node(
        "r".to_string(),
        "r".to_string(),
        1,
        vec![
            leaf_node("r/x".to_string(), "x".to_string(), 1, 15),
            leaf_node("r/z".to_string(), "z".to_string(), 1, 30),
        ],
    );
    let report = diff(&old, &new);
    assert_eq!(
        render_report(&report),
        "Removido: r/y\nAdicionado: r/z\nAlterado: r/x (modificado de 10 para 15)\n"
    );
}

#[test]
fn empty_report_renders_nothing() {
    let report = DriftReport {
        added: vec![],
        removed: vec![],
        modified: vec![],
    };
    assert_eq!(render_report(&report), "");
}
