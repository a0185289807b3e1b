//! File-system path operations, as std's `Path` performs them on text.
//!
//! Paths are held as `String`s. Only the textual operations that std
//! defines are used here; nothing touches the file system.

use vstd::prelude::*;
use crate::text::starts_with;

verus! {

/// The parent of a path as std's `Path::parent` computes it: `None` for a
/// root or an empty path. Its definition is std's component parsing.
pub uninterp spec fn path_parent(p: Seq<char>) -> Option<Seq<char>>;

/// `base` with `rel` appended as std's `Path::join` computes it.
pub uninterp spec fn path_join(base: Seq<char>, rel: Seq<char>) -> Seq<char>;

/// Calls std's `Path::parent` on `p` and converts the parent back to text
/// (lossless here: the parent of a path made from a `&str` is a prefix of
/// it). The contract names the result `path_parent(p)` and says no more.
#[verifier::external_body]
pub fn parent_of(p: &str) -> (r: Option<String>)
    ensures
        match r {
            Some(s) => path_parent(p@) == Some(s@),
            None => path_parent(p@) is None,
        },
{
    std::path::Path::new(p).parent().map(|q| q.to_string_lossy().to_string())
}

/// Calls std's `Path::join` and converts the joined path back to text
/// (lossless: both parts are `&str`). The contract names the result
/// `path_join(base, rel)`, and says what std's documentation says of it:
/// an absolute `rel` (on Unix, one that starts with `/`) replaces `base`.
/// How a relative `rel` is joined (when a separator goes between) is left
/// to the name.
#[verifier::external_body]
pub fn join_path(base: &str, rel: &str) -> (r: String)
    ensures
        r@ == path_join(base@, rel@),
        starts_with(rel@, "/"@) ==> r@ == rel@,
{
    std::path::Path::new(base).join(rel).to_string_lossy().to_string()
}

} // verus!
