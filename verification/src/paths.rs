//! Path operations of `std::path`, which the lookup uses to form the paths of
//! theme files. How `Path::join` adjoins a component is stated; what
//! `set_file_name` and `pop` leave depends on how `std` splits a path into
//! components, which the library names and does not restate.
use vstd::prelude::*;

verus! {

/// What `Path::join` gives for `base` and `part` on Unix: an absolute `part`
/// (one that starts with `/`) replaces `base`; otherwise `part` follows
/// `base`, after a `/` unless `base` is empty or already ends with one.
pub open spec fn path_join_spec(base: Seq<char>, part: Seq<char>) -> Seq<char> {
    if part.len() > 0 && part[0] == '/' {
        part
    } else if base.len() == 0 || base.last() == '/' {
        base + part
    } else {
        base + seq!['/'] + part
    }
}

/// What `PathBuf::set_file_name` makes of `path` and `file`.
pub uninterp spec fn path_with_file_name_spec(path: Seq<char>, file: Seq<char>) -> Seq<char>;

/// What `PathBuf::pop` leaves of `path`.
pub uninterp spec fn path_pop_spec(path: Seq<char>) -> Seq<char>;

/// Calls `std::path::Path::join`, which on Unix replaces `base` by an
/// absolute `part` and otherwise appends `part`, with a `/` between them
/// unless `base` is empty or ends with one (`PathBuf::push`). Both arguments
/// are UTF-8, so the joined path is too, and the lossy conversion back to a
/// string changes nothing.
#[verifier::external_body]
pub(crate) fn path_join(base: &str, part: &str) -> (r: String)
    ensures
        r@ == path_join_spec(base@, part@),
{
    std::path::Path::new(base).join(part).to_string_lossy().into_owned()
}

/// Calls `std::path::PathBuf::set_file_name`: the last component of `path`
/// replaced by `file` (or `file` appended where `path` has no file name). The
/// contract claims only that the result is that function of the arguments.
#[verifier::external_body]
pub(crate) fn path_with_file_name(path: &str, file: &str) -> (r: String)
    ensures
        r@ == path_with_file_name_spec(path@, file@),
{
    let mut p = std::path::PathBuf::from(path);
    p.set_file_name(file);
    p.to_string_lossy().into_owned()
}

/// Calls `std::path::PathBuf::pop`: `path` without its last component (and
/// unchanged where it has no parent). The contract claims only that the
/// result is that function of the argument.
#[verifier::external_body]
pub(crate) fn path_pop(path: &str) -> (r: String)
    ensures
        r@ == path_pop_spec(path@),
{
    let mut p = std::path::PathBuf::from(path);
    p.pop();
    p.to_string_lossy().into_owned()
}

} // verus!
