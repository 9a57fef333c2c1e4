//! Filesystem paths, held as text, and the std path operations the library uses.
use vstd::prelude::*;

verus! {

/// What `Path::file_stem` gives for a path, as text.
pub uninterp spec fn path_stem(p: Seq<char>) -> Option<Seq<char>>;

/// What `Path::file_name` gives for a path, as text.
pub uninterp spec fn path_file_name(p: Seq<char>) -> Option<Seq<char>>;

/// What `Path::extension` gives for a path, as text.
pub uninterp spec fn path_extension(p: Seq<char>) -> Option<Seq<char>>;

/// What `Path::is_absolute` says of a path.
pub uninterp spec fn path_is_absolute(p: Seq<char>) -> bool;

/// What `Path::strip_prefix` leaves of `p` below `base`, as text.
pub uninterp spec fn path_strip_prefix(p: Seq<char>, base: Seq<char>) -> Option<Seq<char>>;

/// What `Path::join` gives for a base and a relative part, as text.
pub uninterp spec fn path_join(base: Seq<char>, part: Seq<char>) -> Seq<char>;

/// Relies on `Path::file_stem` (and `OsStr::to_str`): the file name without its last extension.
#[verifier::external_body]
pub fn file_stem(p: &str) -> (r: Option<String>)
    ensures
        match path_stem(p@) {
            Some(v) => r is Some && r->Some_0@ == v,
            None => r is None,
        },
{
    std::path::Path::new(p).file_stem().and_then(|s| s.to_str()).map(|s| s.to_string())
}

/// Relies on `Path::file_name` (and `OsStr::to_str`): the last component of the path.
#[verifier::external_body]
pub fn file_name(p: &str) -> (r: Option<String>)
    ensures
        match path_file_name(p@) {
            Some(v) => r is Some && r->Some_0@ == v,
            None => r is None,
        },
{
    std::path::Path::new(p).file_name().and_then(|s| s.to_str()).map(|s| s.to_string())
}

/// Relies on `Path::extension` (and `OsStr::to_str`): the text after the last dot of the file name.
#[verifier::external_body]
pub fn extension(p: &str) -> (r: Option<String>)
    ensures
        match path_extension(p@) {
            Some(v) => r is Some && r->Some_0@ == v,
            None => r is None,
        },
{
    std::path::Path::new(p).extension().and_then(|s| s.to_str()).map(|s| s.to_string())
}

/// Relies on `Path::is_absolute`: whether the path does not depend on the current directory.
#[verifier::external_body]
pub fn is_absolute(p: &str) -> (r: bool)
    ensures
        r == path_is_absolute(p@),
{
    std::path::Path::new(p).is_absolute()
}

/// Relies on `Path::strip_prefix` (and `Path::to_str`): the part of `p` below `base`, if `p` lies under it.
#[verifier::external_body]
pub fn strip_prefix(p: &str, base: &str) -> (r: Option<String>)
    ensures
        match path_strip_prefix(p@, base@) {
            Some(v) => r is Some && r->Some_0@ == v,
            None => r is None,
        },
{
    std::path::Path::new(p).strip_prefix(base).ok().and_then(|s| s.to_str()).map(|s| s.to_string())
}

/// Relies on `Path::join` (and `Path::to_string_lossy`): `part` appended to `base` as a path.
#[verifier::external_body]
pub fn join(base: &str, part: &str) -> (r: String)
    ensures
        r@ == path_join(base@, part@),
{
    std::path::Path::new(base).join(part).to_string_lossy().to_string()
}

} // verus!
