//! The command lines of the remote session: validation of the operator's
//! SSH command, and the exact text of every command the dispatcher and the
//! deployment path run on or against the remote host.

use vstd::prelude::*;
use crate::chars::{spec_words, take_words};

verus! {

/// What `shell_escape::unix::escape` returns for a string: its POSIX-shell
/// quoting, a function of the string alone.
pub uninterp spec fn shell_escaped(s: Seq<char>) -> Seq<char>;

/// Relies on `shell_escape::unix::escape`: quotes a string so that a POSIX
/// shell reads it as one word.
#[verifier::external_body]
fn escape_arg(s: &str) -> (r: String)
    ensures
        r@ == shell_escaped(s@),
{
    shell_escape::unix::escape(std::borrow::Cow::from(s)).into_owned()
}

/// The fixed name a remote document is moved to before download.
pub fn remote_temp_path() -> (r: String)
    ensures
        r@ == "/tmp/file.pdf"@,
{
    String::from_str("/tmp/file.pdf")
}

/// The local name a fetched document is stored under while its text is
/// extracted.
pub fn local_temp_name() -> (r: String)
    ensures
        r@ == "file_tmp.pdf"@,
{
    String::from_str("file_tmp.pdf")
}

/// The `user@host` part of the operator's SSH command: the command must
/// read `ssh <target>`, anything after the target being ignored.
pub fn parse_ssh_target(ssh_cmd: &str) -> (r: Option<String>)
    ensures
        ({
            let ws = spec_words(ssh_cmd@);
            match r {
                Some(h) => ws.len() >= 2 && ws[0] == "ssh"@ && h@ == ws[1],
                None => ws.len() < 2 || ws[0] != "ssh"@,
            }
        }),
{
    let words = take_words(ssh_cmd, 2);
    if words.len() < 2 {
        return None;
    }
    if !words[0].eq(&String::from_str("ssh")) {
        return None;
    }
    Some(words[1].clone())
}

/// The remote command that renames one file to another, both names quoted:
/// `<ssh command> "mv <from> <to>"`.
pub open spec fn spec_move_command(ssh: Seq<char>, from: Seq<char>, to: Seq<char>) -> Seq<char> {
    ssh + " \"mv "@ + shell_escaped(from) + " "@ + shell_escaped(to) + "\""@
}

pub fn build_move_command(ssh_cmd: &str, from: &str, to: &str) -> (r: String)
    ensures
        r@ == spec_move_command(ssh_cmd@, from@, to@),
{
    let mut out = String::from_str(ssh_cmd);
    out.append(" \"mv ");
    let ef = escape_arg(from);
    out.append(ef.as_str());
    out.append(" ");
    let et = escape_arg(to);
    out.append(et.as_str());
    out.append("\"");
    out
}

/// The download command: `scp <user@host>:<remote> '<local>'`.
pub open spec fn spec_fetch_command(target: Seq<char>, remote: Seq<char>, local: Seq<char>) -> Seq<
    char,
> {
    "scp "@ + target + ":"@ + remote + " '"@ + local + "'"@
}

pub fn build_fetch_command(target: &str, remote: &str, local: &str) -> (r: String)
    ensures
        r@ == spec_fetch_command(target@, remote@, local@),
{
    let mut out = String::from_str("scp ");
    out.append(target);
    out.append(":");
    out.append(remote);
    out.append(" '");
    out.append(local);
    out.append("'");
    out
}

/// The cleanup command that removes the remote temporary name:
/// `<ssh command> 'rm -f <remote>'`.
pub open spec fn spec_remove_command(ssh: Seq<char>, remote: Seq<char>) -> Seq<char> {
    ssh + " 'rm -f "@ + remote + "'"@
}

pub fn build_remove_command(ssh_cmd: &str, remote: &str) -> (r: String)
    ensures
        r@ == spec_remove_command(ssh_cmd@, remote@),
{
    let mut out = String::from_str(ssh_cmd);
    out.append(" 'rm -f ");
    out.append(remote);
    out.append("'");
    out
}

/// The upload command that places the capture binary in the remote home:
/// `scp <local> <user@host>:~/fs_tree_bin`.
pub open spec fn spec_push_command(local: Seq<char>, target: Seq<char>) -> Seq<char> {
    "scp "@ + local + " "@ + target + ":~/fs_tree_bin"@
}

pub fn build_push_command(local: &str, target: &str) -> (r: String)
    ensures
        r@ == spec_push_command(local@, target@),
{
    let mut out = String::from_str("scp ");
    out.append(local);
    out.append(" ");
    out.append(target);
    out.append(":~/fs_tree_bin");
    out
}

/// The remote command that marks the capture binary executable:
/// `<ssh command> 'chmod +x ~/fs_tree_bin'`.
pub open spec fn spec_chmod_command(ssh: Seq<char>) -> Seq<char> {
    ssh + " 'chmod +x ~/fs_tree_bin'"@
}

pub fn build_chmod_command(ssh_cmd: &str) -> (r: String)
    ensures
        r@ == spec_chmod_command(ssh_cmd@),
{
    let mut out = String::from_str(ssh_cmd);
    out.append(" 'chmod +x ~/fs_tree_bin'");
    out
}

/// The remote command that prints the remote home tree as JSON:
/// `<ssh command> ./fs_tree_bin`.
pub open spec fn spec_tree_command(ssh: Seq<char>) -> Seq<char> {
    ssh + " ./fs_tree_bin"@
}

pub fn build_tree_command(ssh_cmd: &str) -> (r: String)
    ensures
        r@ == spec_tree_command(ssh_cmd@),
{
    let mut out = String::from_str(ssh_cmd);
    out.append(" ./fs_tree_bin");
    out
}

} // verus!
