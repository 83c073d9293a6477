//! The text of a label: how the bytes of a label on the wire become part of a name.

use vstd::prelude::*;

verus! {

/// The string that `String::from_utf8_lossy` makes of `bytes`: their UTF-8 decoding, with
/// the replacement character in place of each part that is not valid UTF-8.
pub uninterp spec fn utf8_lossy(bytes: Seq<u8>) -> Seq<char>;

/// The string that `str::to_lowercase` makes of `text`: its lowercase equivalent as
/// Unicode defines it.
pub uninterp spec fn lowercased(text: Seq<char>) -> Seq<char>;

/// The text of a label with the bytes `label`: decoded leniently, then in lower case.
pub open spec fn label_text(label: Seq<u8>) -> Seq<char> {
    lowercased(utf8_lossy(label))
}

/// Calls `String::from_utf8_lossy` and takes the result as an owned string. Nothing is
/// proved of it: its result is known to the library by the name `utf8_lossy` only.
#[verifier::external_body]
pub(crate) fn decode_lossy(bytes: &[u8]) -> (text: String)
    ensures
        text@ == utf8_lossy(bytes@),
{
    String::from_utf8_lossy(bytes).into_owned()
}

/// Calls `str::to_lowercase`. Nothing is proved of it: its result is known to the library
/// by the name `lowercased` only.
#[verifier::external_body]
pub(crate) fn to_lowercase(text: &str) -> (lower: String)
    ensures
        lower@ == lowercased(text@),
{
    text.to_lowercase()
}

/// The text of the label with the bytes `label`.
pub(crate) fn read_label(label: &[u8]) -> (text: String)
    ensures
        text@ == label_text(label@),
{
    let decoded = decode_lossy(label);
    to_lowercase(decoded.as_str())
}

} // verus!
