//! Calls into std and into the `sha1` crate, each with the contract that the
//! rest of the library relies on.
use vstd::prelude::*;

verus! {

/// The lowercase hexadecimal SHA-1 digest of a byte string.
pub uninterp spec fn sha1_hex(data: Seq<u8>) -> Seq<char>;

/// The text that `Debug` gives for a string: the string in double quotes, with
/// special characters escaped.
pub uninterp spec fn str_debug(s: Seq<char>) -> Seq<char>;

/// The text that `Debug` gives for a file system path.
pub uninterp spec fn path_debug(p: Seq<char>) -> Seq<char>;

/// The path without its final component, if it has one.
pub uninterp spec fn path_parent(p: Seq<char>) -> Option<Seq<char>>;

/// Relies on `sha1::Sha1::from(..).digest()` and on `Display` for
/// `sha1::Digest`, which writes the five 32-bit words of the digest as eight
/// lowercase hexadecimal digits each.
#[verifier::external_body]
pub(crate) fn sha1_hex_of(data: &[u8]) -> (r: String)
    ensures
        r@ == sha1_hex(data@),
        r@.len() == 40,
{
    sha1::Sha1::from(data).digest().to_string()
}

/// Relies on `<str as Debug>::fmt`; its text depends on the characters alone.
#[verifier::external_body]
pub(crate) fn debug_of_str(s: &str) -> (r: String)
    ensures
        r@ == str_debug(s@),
{
    format!("{:?}", s)
}

/// Relies on `<std::path::Path as Debug>::fmt`; its text depends on the path alone.
#[verifier::external_body]
pub(crate) fn debug_of_path(p: &str) -> (r: String)
    ensures
        r@ == path_debug(p@),
{
    format!("{:?}", std::path::Path::new(p))
}

/// Relies on `std::path::Path::parent`, which returns the path without its
/// final component; since a component was taken off, it is shorter.
#[verifier::external_body]
pub(crate) fn parent_of_path(p: &str) -> (r: Option<String>)
    ensures
        match r {
            Some(q) => path_parent(p@) == Some(q@) && q@.len() < p@.len(),
            None => path_parent(p@) is None,
        },
{
    std::path::Path::new(p).parent().map(|q| q.to_string_lossy().into_owned())
}

/// The SHA-1 digest of the bytes, as forty lowercase hexadecimal digits.
pub fn sha1(data: &[u8]) -> (r: String)
    ensures
        r@ == sha1_hex(data@),
        r@.len() == 40,
{
    sha1_hex_of(data)
}

} // verus!
