//! Which files and directories a scan of a notes directory looks at.
use vstd::prelude::*;

use crate::ingest::parser::{file_name_part, path_extension, path_file_name};
use crate::text::{ascii_lower_chars, ascii_lower_seq, chars_eq, chars_of};

verus! {

/// `Path::extension` (std) on a path given as text: `None` when the path
/// has no file name, or its file name no extension; else what follows the
/// last `.` of the file name (see `extension_of_name`), as std's
/// documentation states it.
#[verifier::external_body]
fn extension_part(path: &str) -> (r: Option<String>)
    ensures
        match r {
            Some(s) => path_extension(path@) == Some(s@),
            None => path_extension(path@) is None,
        },
{
    match std::path::Path::new(path).extension() {
        Some(ext) => ext.to_str().map(|e| e.to_string()),
        None => None,
    }
}

/// Markdown and text files are indexed, whatever the case of the extension.
pub open spec fn supported_extension(ext: Seq<char>) -> bool {
    let e = ascii_lower_seq(ext);
    e == "md"@ || e == "markdown"@ || e == "txt"@
}

/// Version control and editor directories, and build output, are skipped.
pub open spec fn ignored_name(name: Seq<char>) -> bool {
    name == ".git"@ || name == "target"@ || name == ".idea"@ || name == ".vscode"@
}

fn same(s: &[char], lit: &str) -> (r: bool)
    ensures
        r == (s@ == lit@),
{
    let b = chars_of(lit);
    chars_eq(s, b.as_slice())
}

/// Whether a scan indexes the file at `path`.
pub fn is_supported_file(path: &str) -> (r: bool)
    ensures
        r == (path_extension(path@) matches Some(e) && supported_extension(e)),
{
    match extension_part(path) {
        Some(ext) => {
            let cs = chars_of(ext.as_str());
            let lower = ascii_lower_chars(cs.as_slice());
            let l = lower.as_slice();
            same(l, "md") || same(l, "markdown") || same(l, "txt")
        },
        None => false,
    }
}

/// Whether a scan skips the directory at `path`.
pub fn is_ignored_dir(path: &str) -> (r: bool)
    ensures
        r == (path_file_name(path@) matches Some(n) && ignored_name(n)),
{
    match file_name_part(path) {
        Some(name) => {
            let cs = chars_of(name.as_str());
            let n = cs.as_slice();
            same(n, ".git") || same(n, "target") || same(n, ".idea") || same(n, ".vscode")
        },
        None => false,
    }
}

} // verus!
