use vm_map::remote::{
    build_chmod_command, build_fetch_command, build_move_command, build_push_command,
    build_remove_command, build_tree_command, parse_ssh_target, remote_temp_path,
};

#[test]
fn ssh_target_is_second_word() {
    assert_eq!(
        parse_ssh_target("ssh user@host").as_deref(),
        Some("user@host")
    );
    assert_eq!(
        parse_ssh_target("  ssh   user@host  extra ").as_deref(),
        Some("user@host")
    );
    assert!(parse_ssh_target("scp user@host").is_none());
    assert!(parse_ssh_target("ssh").is_none());
    assert!(parse_ssh_target("").is_none());
}

#[test]
fn move_command_escapes_paths() {
    let cmd = build_move_command("ssh u@h", "/home/u/my file.pdf", "/tmp/file.pdf");
    assert_eq!(cmd, "ssh u@h \"mv '/home/u/my file.pdf' /tmp/file.pdf\"");
}

#[test]
fn fetch_command_shape() {
    assert_eq!(
        build_fetch_command("u@h", "/tmp/file.pdf", "/tmp/file_tmp.pdf"),
        "scp u@h:/tmp/file.pdf '/tmp/file_tmp.pdf'"
    );
}

#[test]
fn remove_command_shape() {
    assert_eq!(
        build_remove_command("ssh u@h", "/tmp/file.pdf"),
        "ssh u@h 'rm -f /tmp/file.pdf'"
    );
}

#[test]
fn deployment_command_shapes() {
    assert_eq!(
        build_push_command("./target/release/fs_tree_bin", "u@h"),
        "scp ./target/release/fs_tree_bin u@h:~/fs_tree_bin"
    );
    assert_eq!(
        build_chmod_command("ssh u@h"),
        "ssh u@h 'chmod +x ~/fs_tree_bin'"
    );
    assert_eq!(build_tree_command("ssh u@h"), "ssh u@h ./fs_tree_bin");
}

#[test]
fn temp_path_is_fixed() {
    assert_eq!(remote_temp_path(), "/tmp/file.pdf");
}

#[test]
fn ssh_target_accepts_any_whitespace() {
    assert_eq!(
        parse_ssh_target("ssh\tuser@host\nextra").as_deref(),
        Some("user@host")
    );
}
