//! Best-effort detection of the project directory of a running KiCad.
//!
//! Asking KiCad over its IPC API is the caller's business (it is I/O, and
//! the IPC client is optional); this module turns the project-file path
//! that KiCad reports, if any, into the project's directory.

use vstd::prelude::*;
use crate::text::last_index_of;

verus! {

/// A character that separates path components on some platform.
pub open spec fn is_path_separator(c: char) -> bool {
    c == '/' || c == '\\'
}

/// `path` ends in a named component on every platform: it is not empty;
/// its last character is no separator, `.` or `:` (so it does not end in a
/// root, a `.` or `..` component, or a drive prefix such as `C:`); and it
/// does not start with two separators (the form of network and device
/// prefixes).
pub open spec fn ends_in_named_component(path: Seq<char>) -> bool {
    &&& path.len() > 0
    &&& !is_path_separator(path.last())
    &&& path.last() != '.'
    &&& path.last() != ':'
    &&& !(path.len() >= 2 && is_path_separator(path[0]) && is_path_separator(path[1]))
}

/// `d` reads as the same directory on every platform: it is not empty, has
/// no `\\` or `:`, does not start with two separators, and does not end in
/// `/` or `.`.
pub open spec fn portable_dir(d: Seq<char>) -> bool {
    &&& d.len() > 0
    &&& forall|i: int| 0 <= i < d.len() ==> #[trigger] d[i] != '\\' && d[i] != ':'
    &&& !(d.len() >= 2 && is_path_separator(d[0]) && is_path_separator(d[1]))
    &&& d.last() != '/'
    &&& d.last() != '.'
}

/// `n` reads as the same file name on every platform: it is not empty, has
/// no separator or `:`, and does not end in `.`.
pub open spec fn portable_name(n: Seq<char>) -> bool {
    &&& n.len() > 0
    &&& forall|i: int| 0 <= i < n.len() ==> #[trigger] n[i] != '/' && n[i] != '\\' && n[i] != ':'
    &&& n.last() != '.'
}

/// For a path `d/n` that means the same on every platform (`d` a portable
/// directory, `n` a portable name), the directory `d`.
pub open spec fn portable_parent(path: Seq<char>) -> Option<Seq<char>> {
    match last_index_of(path, '/') {
        Some(k) => if portable_dir(path.subrange(0, k)) && portable_name(
            path.subrange(k + 1, path.len() as int),
        ) {
            Some(path.subrange(0, k))
        } else {
            None
        },
        None => None,
    }
}

/// Trusted: `std::path::Path::parent` on the path spelled by `path`, read
/// back as text. Its documentation: the parent is the path without its
/// final component, if there is one, and there is none when the path
/// terminates in a root or prefix or is empty. So a path that ends in a
/// named component has a parent, and a parent is a shorter leading part of
/// `path`. For `d/n`, where `d` and `n` read alike on Unix and Windows
/// (`portable_parent`), the last component is `n` and what is left, with
/// the separator before `n` trimmed, is `d`. The root `/` has no parent.
/// For other paths, which leading part is the parent depends on the
/// platform's path syntax and is not stated.
#[verifier::external_body]
fn path_parent(path: &str) -> (r: Option<String>)
    ensures
        r matches Some(p) ==> p@.len() < path@.len() && p@ == path@.subrange(0, p@.len() as int),
        ends_in_named_component(path@) ==> r is Some,
        portable_parent(path@) is Some ==> r is Some && r.unwrap()@ == portable_parent(path@).unwrap(),
        path@.len() == 1 && path@[0] == '/' ==> r is None,
{
    match std::path::Path::new(path).parent() {
        Some(p) => Some(p.to_string_lossy().into_owned()),
        None => None,
    }
}

/// The directory of the project KiCad has open, given the project-file
/// path that KiCad reported (`None` when KiCad could not be asked, is not
/// running, or has no project open). `None` means the directory must be
/// typed in by hand. A reported path that ends in a named component (a
/// project file's path does) always gives a directory; for a path `d/n`
/// that reads alike on every platform it is `d`; the root gives none.
pub fn try_detect_project_dir(reported_project_path: Option<&str>) -> (r: Option<String>)
    ensures
        reported_project_path is None ==> r is None,
        reported_project_path matches Some(p) ==> (r matches Some(d) ==> d@.len() < p@.len()
            && d@ == p@.subrange(0, d@.len() as int)),
        reported_project_path matches Some(p) ==> (ends_in_named_component(p@) ==> r is Some),
        reported_project_path matches Some(p) ==> (portable_parent(p@) is Some ==> r is Some
            && r.unwrap()@ == portable_parent(p@).unwrap()),
        reported_project_path matches Some(p) ==> (p@.len() == 1 && p@[0] == '/' ==> r is None),
{
    match reported_project_path {
        None => None,
        Some(path) => path_parent(path),
    }
}

/// The status line after asking KiCad for its project directory.
pub open spec fn detection_status_text(detected: bool) -> Seq<char> {
    if detected {
        "Detected project directory via KiCad IPC."@
    } else {
        "Could not auto-detect (KiCad IPC unavailable) -- enter the project directory manually."@
    }
}

/// The status line after asking KiCad for its project directory, as
/// `detected` says whether a directory came back.
pub fn detection_status(detected: bool) -> (r: String)
    ensures
        r@ == detection_status_text(detected),
{
    if detected {
        String::from_str("Detected project directory via KiCad IPC.")
    } else {
        String::from_str(
            "Could not auto-detect (KiCad IPC unavailable) -- enter the project directory manually.",
        )
    }
}

} // verus!
