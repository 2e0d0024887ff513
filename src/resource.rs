use vstd::prelude::*;

verus! {

/// The content type that `mime_guess` gives for a path.
pub uninterp spec fn mime_of(path: Seq<char>) -> Seq<char>;

/// The padded standard base64 encoding of `bytes`, without line breaks.
pub uninterp spec fn base64_of(bytes: Seq<u8>) -> Seq<char>;

/// `rel` joined onto the directory `dir` as `PathBuf::push` joins them.
pub uninterp spec fn joined(dir: Seq<char>, rel: Seq<char>) -> Seq<char>;

/// The parent directory of a path, as `Path::parent` gives it.
pub uninterp spec fn parent_of(path: Seq<char>) -> Option<Seq<char>>;

/// The last component of a path, as `Path::iter` yields it.
pub uninterp spec fn last_component_of(path: Seq<char>) -> Option<Seq<char>>;

/// Relies on mime_guess::guess_mime_type: the type is looked up from the
/// path's extension, `application/octet-stream` where it is unknown.
#[verifier::external_body]
fn guess_mime(path: &str) -> (r: String)
    ensures
        r@ == mime_of(path@),
{
    mime_guess::guess_mime_type(path).to_string()
}

/// Relies on base64::encode: the standard alphabet with padding. It panics
/// only where the encoded length overflows `usize`.
#[verifier::external_body]
fn encode_base64(bytes: &[u8]) -> (r: String)
    requires
        bytes@.len() <= isize::MAX,
    ensures
        r@ == base64_of(bytes@),
{
    base64::encode(bytes)
}

/// Relies on std::path::PathBuf::push to join a relative reference onto a directory.
#[verifier::external_body]
pub(crate) fn join_path(dir: &str, rel: &str) -> (r: String)
    ensures
        r@ == joined(dir@, rel@),
{
    let mut p = std::path::PathBuf::from(dir);
    p.push(rel);
    p.to_string_lossy().into_owned()
}

/// Relies on std::path::Path::parent: `None` for a root or an empty path.
#[verifier::external_body]
pub(crate) fn parent_path(path: &str) -> (r: Option<String>)
    ensures
        r matches Some(p) ==> parent_of(path@) == Some(p@),
        r is None ==> parent_of(path@) is None,
{
    std::path::Path::new(path).parent().map(|p| p.to_string_lossy().into_owned())
}

/// Relies on std::path::Path::iter: the last component yielded, `None` for an empty path.
#[verifier::external_body]
pub(crate) fn last_component(path: &str) -> (r: Option<String>)
    ensures
        r matches Some(c) ==> last_component_of(path@) == Some(c@),
        r is None ==> last_component_of(path@) is None,
{
    std::path::Path::new(path).iter().last().map(|c| c.to_string_lossy().into_owned())
}

/// The embedded form of a resource read from `path` with contents `bytes`.
pub open spec fn data_uri_of(path: Seq<char>, bytes: Seq<u8>) -> Seq<char> {
    "data:"@ + mime_of(path) + ";base64,"@ + base64_of(bytes)
}

/// Turns the contents of the resource at `path` into a `data:` URI whose
/// content type is guessed from the path's extension.
pub fn data_uri(path: &str, bytes: &[u8]) -> (r: String)
    requires
        bytes@.len() <= isize::MAX,
    ensures
        r@ == data_uri_of(path@, bytes@),
{
    let mime = guess_mime(path);
    let encoded = encode_base64(bytes);
    let mut r = String::from_str("data:");
    r.append(mime.as_str());
    r.append(";base64,");
    r.append(encoded.as_str());
    r
}

} // verus!
