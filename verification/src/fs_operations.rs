//! The path-relativization collaborator: computing the archive-relative
//! path under which a source file is recorded.

use vstd::prelude::*;

verus! {

/// What the platform's path arithmetic yields for `file_path` taken
/// relative to `root_dir`: the UTF-8 bytes of the relative path, or None
/// when no relative path exists. The result is determined by the two
/// strings alone (the path syntax is fixed at build time).
pub uninterp spec fn rel_path_of(root_dir: Seq<char>, file_path: Seq<char>) -> Option<Seq<u8>>;

/// Compute the path under which a source file is recorded in the archive:
/// `file_path` taken relative to `root_dir`.
///
/// Relies on pathdiff::diff_paths, a pure function of its two path
/// arguments; a resolved path whose bytes are not valid UTF-8 counts as
/// unresolvable.
#[verifier::external_body]
pub fn format_path(root_dir: &str, file_path: &str) -> (r: Option<Vec<u8>>)
    ensures
        r is Some <==> rel_path_of(root_dir@, file_path@) is Some,
        r is Some ==> r.unwrap()@ == rel_path_of(root_dir@, file_path@).unwrap(),
{
    match pathdiff::diff_paths(file_path, root_dir) {
        Some(p) => match p.into_os_string().into_string() {
            Ok(s) => Some(s.into_bytes()),
            Err(_) => None,
        },
        None => None,
    }
}

} // verus!
