use vstd::prelude::*;

verus! {

/// The final component of a path, where it is a normal one.
pub uninterp spec fn file_name_of(p: Seq<char>) -> Option<Seq<char>>;

/// A path without its final component.
pub uninterp spec fn parent_of(p: Seq<char>) -> Option<Seq<char>>;

/// `name` adjoined to `base`.
pub uninterp spec fn joined(base: Seq<char>, name: Seq<char>) -> Seq<char>;

/// A path that does not start from a root.
pub uninterp spec fn is_relative_path(p: Seq<char>) -> bool;

/// Relies on `Path::file_name`, read as text: the final component of the path
/// when it is a normal component.
#[verifier::external_body]
pub(crate) fn file_name(p: &str) -> (r: Option<String>)
    ensures
        match r {
            Some(n) => file_name_of(p@) == Some(n@),
            None => file_name_of(p@) is None,
        },
{
    match std::path::Path::new(p).file_name() {
        Some(n) => match n.to_str() {
            Some(t) => Some(t.to_string()),
            None => None,
        },
        None => None,
    }
}

/// Relies on `Path::parent`, read as text: the path without its final component.
#[verifier::external_body]
pub(crate) fn parent(p: &str) -> (r: Option<String>)
    ensures
        match r {
            Some(d) => parent_of(p@) == Some(d@),
            None => parent_of(p@) is None,
        },
{
    match std::path::Path::new(p).parent() {
        Some(d) => match d.to_str() {
            Some(t) => Some(t.to_string()),
            None => None,
        },
        None => None,
    }
}

/// Relies on `Path::join`, read as text: `name` adjoined to `base`.
#[verifier::external_body]
pub(crate) fn join(base: &str, name: &str) -> (r: String)
    ensures
        r@ == joined(base@, name@),
{
    std::path::Path::new(base).join(name).to_string_lossy().into_owned()
}

/// Relies on `Path::is_relative`: whether the path does not start from a root.
#[verifier::external_body]
pub(crate) fn is_relative(p: &str) -> (r: bool)
    ensures
        r == is_relative_path(p@),
{
    std::path::Path::new(p).is_relative()
}

} // verus!
