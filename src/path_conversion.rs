//! Path text in Unix and Windows forms, for display and for handing paths
//! between platforms. The host is taken to use Unix paths.

use crate::coerce::chars_of;
use crate::error::QuantumConfigError;
use vstd::prelude::*;
use vstd::string::*;

verus! {

/// What `typed_path` makes of the Unix path `p` written in Windows form.
pub uninterp spec fn windows_form_of(p: Seq<char>) -> Seq<char>;

/// Relies on `typed_path::Utf8Path::<Utf8UnixEncoding>::with_encoding`:
/// rebuilds the path component by component with Windows separators, which
/// depends on the text alone.
#[verifier::external_body]
fn unix_to_windows_text(p: &str) -> (r: String)
    ensures
        r@ == windows_form_of(p@),
{
    typed_path::Utf8Path::<typed_path::Utf8UnixEncoding>::new(p).with_encoding::<
        typed_path::Utf8WindowsEncoding,
    >().into_string()
}

/// Relies on `typed_path::Utf8PathBuf::from` and `as_str`: a Unix path
/// keeps its text as it is.
#[verifier::external_body]
fn unix_path_text(p: &str) -> (r: String)
    ensures
        r@ == p@,
{
    typed_path::Utf8PathBuf::<typed_path::Utf8UnixEncoding>::from(p).as_str().to_string()
}

/// The form a path string is written in.
#[derive(Debug, Clone, Copy, PartialEq, Eq, Structural)]
pub enum PathFormat {
    /// Forward slashes only.
    Unix,
    /// Backslashes.
    Windows,
    /// No separator at all.
    Unknown,
}

/// The path in Unix form.
pub fn to_unix(path: &str) -> (r: Result<String, QuantumConfigError>)
    ensures
        r matches Ok(s) && s@ == path@,
{
    Ok(unix_path_text(path))
}

/// The path in Windows form.
pub fn to_windows(path: &str) -> (r: Result<String, QuantumConfigError>)
    ensures
        r matches Ok(s) && s@ == windows_form_of(path@),
{
    Ok(unix_to_windows_text(path))
}

/// The path in the host's form.
pub fn to_native(path: &str) -> (r: Result<String, QuantumConfigError>)
    ensures
        r matches Ok(s) && s@ == path@,
{
    to_unix(path)
}

/// The path in Windows form where `target_is_windows`, else in Unix form.
pub fn normalize_for_platform(path: &str, target_is_windows: bool) -> (r: Result<
    String,
    QuantumConfigError,
>)
    ensures
        r matches Ok(s) && s@ == if target_is_windows {
            windows_form_of(path@)
        } else {
            path@
        },
{
    if target_is_windows {
        to_windows(path)
    } else {
        to_unix(path)
    }
}

fn has_char(cs: &Vec<char>, c: char) -> (r: bool)
    ensures
        r == cs@.contains(c),
{
    let mut i: usize = 0;
    while i < cs.len()
        invariant
            i <= cs.len(),
            forall|j: int| 0 <= j < i ==> cs@[j] != c,
        decreases cs.len() - i,
    {
        if cs[i] == c {
            return true;
        }
        i = i + 1;
    }
    false
}

/// Forward slashes and no backslash.
pub fn is_unix_format(path: &str) -> (r: bool)
    ensures
        r == (path@.contains('/') && !path@.contains('\\')),
{
    let cs = chars_of(path);
    has_char(&cs, '/') && !has_char(&cs, '\\')
}

/// At least one backslash.
pub fn is_windows_format(path: &str) -> (r: bool)
    ensures
        r == path@.contains('\\'),
{
    let cs = chars_of(path);
    has_char(&cs, '\\')
}

/// Windows where there is a backslash, Unix where there are only forward
/// slashes, unknown where there is no separator.
pub fn detect_format(path: &str) -> (r: PathFormat)
    ensures
        path@.contains('\\') ==> r == PathFormat::Windows,
        !path@.contains('\\') && path@.contains('/') ==> r == PathFormat::Unix,
        !path@.contains('\\') && !path@.contains('/') ==> r == PathFormat::Unknown,
{
    if is_windows_format(path) {
        PathFormat::Windows
    } else if is_unix_format(path) {
        PathFormat::Unix
    } else {
        PathFormat::Unknown
    }
}

} // verus!
