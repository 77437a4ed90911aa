//! Relative paths, as the `relative_path` crate reads them: strings with `/`
//! between components.

use relative_path::RelativePath;
use vstd::prelude::*;

verus! {

/// The normal form that `relative_path` gives a relative path.
pub uninterp spec fn rel_normalized(path: Seq<char>) -> Seq<char>;

/// The file stem that `relative_path` finds in a relative path, if any.
pub uninterp spec fn rel_file_stem(path: Seq<char>) -> Option<Seq<char>>;

/// `rel` without one leading separator.
pub open spec fn without_leading_sep(rel: Seq<char>) -> Seq<char> {
    if rel.len() > 0 && rel[0] == '/' {
        rel.skip(1)
    } else {
        rel
    }
}

/// `rel` adjoined to `base`: a separator is put between the two unless `base`
/// is empty or ends with one, and one leading separator of `rel` is dropped.
pub open spec fn rel_joined(base: Seq<char>, rel: Seq<char>) -> Seq<char> {
    if base.len() == 0 || base.last() == '/' {
        base + without_leading_sep(rel)
    } else {
        base + seq!['/'] + without_leading_sep(rel)
    }
}

/// `RelativePath::join`: the second path adjoined to the first.
#[verifier::external_body]
pub(crate) fn join(base: &str, rel: &str) -> (joined: String)
    ensures
        joined@ == rel_joined(base@, rel@),
{
    RelativePath::new(base).join(rel).into_string()
}

/// `RelativePath::normalize`: the normal form of the path, which depends on
/// the path alone.
#[verifier::external_body]
pub(crate) fn normalize(path: &str) -> (normal: String)
    ensures
        normal@ == rel_normalized(path@),
{
    RelativePath::new(path).normalize().into_string()
}

/// `RelativePath::file_stem`: the stem of the file name, which depends on the
/// path alone.
#[verifier::external_body]
pub(crate) fn file_stem(path: &str) -> (stem: Option<String>)
    ensures
        stem.is_some() == rel_file_stem(path@).is_some(),
        stem matches Some(s) ==> Some(s@) == rel_file_stem(path@),
{
    RelativePath::new(path).file_stem().map(|s| s.to_string())
}

} // verus!
