//! Text from raw bytes.

use vstd::prelude::*;

use crate::text::utf8;

verus! {

/// What `String::from_utf8_lossy` makes of `raw`.
pub uninterp spec fn lossy_text(raw: Seq<u8>) -> Seq<char>;

/// Decode `raw` as UTF-8, with each malformed part replaced.
///
/// This is `String::from_utf8_lossy`. What it returns is a function of the
/// bytes, named `lossy_text` here; valid UTF-8 comes out as the text that it
/// encodes. How malformed parts are replaced is not stated.
#[verifier::external_body]
pub(crate) fn text_of_bytes(raw: &[u8]) -> (r: String)
    ensures
        r@ == lossy_text(raw@),
        forall|s: Seq<char>| utf8(s) == raw@ ==> r@ == s,
{
    String::from_utf8_lossy(raw).into_owned()
}

} // verus!
