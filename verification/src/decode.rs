//! Lossy UTF-8 decoding of a line segment's bytes.
use vstd::prelude::*;
use crate::chunks::NEWLINE;

verus! {

/// The character sequence that lossy UTF-8 decoding yields for a byte
/// sequence: a pure function of the bytes alone. Its value is not spelled
/// out; the facts stated where it is applied are all that is relied upon.
pub uninterp spec fn lossy_utf8(b: Seq<u8>) -> Seq<char>;

/// Relies on String::from_utf8_lossy: invalid sequences are replaced by
/// U+FFFD, never an error, and the result depends on the bytes alone.
/// The decoding yields nothing for no input and something for any input;
/// a trailing 0x0A byte is a complete one-byte sequence and decodes to a
/// trailing '\n', and '\n' arises from no other byte.
#[verifier::external_body]
pub fn decode_lossy(bytes: &[u8]) -> (text: String)
    ensures
        text@ == lossy_utf8(bytes@),
        text@.len() == 0 <==> bytes@.len() == 0,
        bytes@.len() > 0 ==> (text@.last() == '\n' <==> bytes@.last() == NEWLINE),
        (forall|i: int| 0 <= i < bytes@.len() ==> bytes@[i] != NEWLINE) ==> (forall|i: int|
            0 <= i < text@.len() ==> text@[i] != '\n'),
{
    String::from_utf8_lossy(bytes).into_owned()
}

} // verus!
