//! Text in UTF-8.

use vstd::prelude::*;

verus! {

/// `std::str::from_utf8`, with a copy of the text: bytes that are UTF-8 are read as such,
/// and no others.
#[verifier::external_body]
pub(crate) fn read_utf8(bytes: &[u8]) -> (text: Option<String>)
    ensures
        text is Some <==> vstd::utf8::valid_utf8(bytes@),
        text matches Some(t) ==> t@ == vstd::utf8::decode_utf8(bytes@),
{
    std::str::from_utf8(bytes).ok().map(|s| s.to_owned())
}

/// What is read of bytes where those that are no UTF-8 are replaced.
pub uninterp spec fn lossy_text(bytes: Seq<u8>) -> Seq<char>;

/// `std::string::String::from_utf8_lossy`, with a copy of the text: bytes that are UTF-8 are
/// read as such. In others, what is no UTF-8 is replaced by U+FFFD; how much each replacement
/// stands for is not spelled out.
#[verifier::external_body]
pub(crate) fn read_lossy(bytes: &[u8]) -> (text: String)
    ensures
        text@ == lossy_text(bytes@),
        vstd::utf8::valid_utf8(bytes@) ==> text@ == vstd::utf8::decode_utf8(bytes@),
{
    String::from_utf8_lossy(bytes).into_owned()
}

}
