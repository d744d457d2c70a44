//! File paths held as text, with the path rules of `std::path` behind them.
//!
//! Each function here names what `std::path` computes for the platform the library
//! is built for; the library reasons about those results without looking inside.

use std::collections::hash_map::DefaultHasher;
use std::hash::{BuildHasher, BuildHasherDefault};
use std::path::Path;
use vstd::prelude::*;

verus! {

/// The final component of a path, as `Path::file_name` gives it.
pub uninterp spec fn file_name_of(path: Seq<char>) -> Option<Seq<char>>;

/// The part of the final component after its last dot, as `Path::extension` gives it.
pub uninterp spec fn extension_of(path: Seq<char>) -> Option<Seq<char>>;

/// What is left of `path` once the leading `base` is removed, as `Path::strip_prefix`
/// gives it; `None` where `base` is no prefix of `path`.
pub uninterp spec fn stripped_prefix(path: Seq<char>, base: Seq<char>) -> Option<Seq<char>>;

/// `base` extended by `rest`, as `Path::join` gives it.
pub uninterp spec fn joined(base: Seq<char>, rest: Seq<char>) -> Seq<char>;

/// Takes the final component of a path with `Path::file_name`. The path is UTF-8
/// text, so its final component is too. The result is taken on trust to be the
/// value that `file_name_of` names; nothing else is claimed about it.
#[verifier::external_body]
pub(crate) fn file_name<'a>(path: &'a str) -> (name: Option<&'a str>)
    ensures
        name.is_some() == file_name_of(path@).is_some(),
        name matches Some(n) ==> file_name_of(path@) == Some(n@),
{
    Path::new(path).file_name().and_then(|n| n.to_str())
}

/// Takes the extension of a path with `Path::extension`. The result is taken on
/// trust to be the value that `extension_of` names; nothing else is claimed about it.
#[verifier::external_body]
pub(crate) fn extension<'a>(path: &'a str) -> (ext: Option<&'a str>)
    ensures
        ext.is_some() == extension_of(path@).is_some(),
        ext matches Some(e) ==> extension_of(path@) == Some(e@),
{
    Path::new(path).extension().and_then(|e| e.to_str())
}

/// Removes a leading base from a path with `Path::strip_prefix`. The result is
/// taken on trust to be the value that `stripped_prefix` names; nothing else is
/// claimed about it.
#[verifier::external_body]
pub(crate) fn strip_prefix<'a>(path: &'a str, base: &str) -> (rest: Option<&'a str>)
    ensures
        rest.is_some() == stripped_prefix(path@, base@).is_some(),
        rest matches Some(r) ==> stripped_prefix(path@, base@) == Some(r@),
{
    Path::new(path).strip_prefix(base).ok().and_then(|r| r.to_str())
}

/// Extends a path with `Path::join`. The result is taken on trust to be the value
/// that `joined` names; nothing else is claimed about it.
#[verifier::external_body]
pub(crate) fn join(base: &str, rest: &str) -> (whole: String)
    ensures
        whole@ == joined(base@, rest@),
{
    Path::new(base).join(rest).to_string_lossy().into_owned()
}

/// The final component of a path without its extension, as `Path::file_stem` gives it.
pub uninterp spec fn file_stem_of(path: Seq<char>) -> Option<Seq<char>>;

/// Takes the stem of a path's final component with `Path::file_stem`. The result is
/// taken on trust to be the value that `file_stem_of` names; nothing else is claimed
/// about it.
#[verifier::external_body]
pub(crate) fn file_stem<'a>(path: &'a str) -> (stem: Option<&'a str>)
    ensures
        stem.is_some() == file_stem_of(path@).is_some(),
        stem matches Some(s) ==> file_stem_of(path@) == Some(s@),
{
    Path::new(path).file_stem().and_then(|s| s.to_str())
}

/// The path without its final component, as `Path::parent` gives it.
pub uninterp spec fn parent_of(path: Seq<char>) -> Option<Seq<char>>;

/// Takes the parent of a path with `Path::parent`. The result is taken on trust to
/// be the value that `parent_of` names; nothing else is claimed about it.
#[verifier::external_body]
pub(crate) fn parent<'a>(path: &'a str) -> (dir: Option<&'a str>)
    ensures
        dir.is_some() == parent_of(path@).is_some(),
        dir matches Some(d) ==> parent_of(path@) == Some(d@),
{
    Path::new(path).parent().and_then(|d| d.to_str())
}

/// The 64-bit hash of a path under the standard library's default hasher, for the
/// platform and the release of the standard library that the library is built with.
pub uninterp spec fn path_hash(path: Seq<char>) -> u64;

/// Hashes a path with `BuildHasher::hash_one` on a default-built `DefaultHasher`,
/// which feeds the path to a fresh hasher and finishes it. The result is taken on
/// trust to be the value that `path_hash` names; nothing else is claimed about it.
#[verifier::external_body]
pub(crate) fn hash_path(path: &str) -> (hash: u64)
    ensures
        hash == path_hash(path@),
{
    BuildHasherDefault::<DefaultHasher>::default().hash_one(Path::new(path))
}

/// The path of `path` relative to `root`, or `path` itself where it does not lie
/// under `root`.
pub open spec fn relative_to(path: Seq<char>, root: Seq<char>) -> Seq<char> {
    match stripped_prefix(path, root) {
        Some(rest) => rest,
        None => path,
    }
}

/// The file name of a path, or the empty text where the path has none: the text
/// that a walk holds against a name pattern.
pub open spec fn name_or_empty(path: Seq<char>) -> Seq<char> {
    match file_name_of(path) {
        Some(name) => name,
        None => Seq::empty(),
    }
}

} // verus!
