//! Base64 text.

use base64::engine::general_purpose::STANDARD;
use base64::Engine;
use vstd::prelude::*;
use vstd::string::*;
use vstd::utf8::*;

verus! {

/// What the standard engine of `base64` makes of bytes.
pub uninterp spec fn base64_of(data: Seq<u8>) -> Seq<char>;

/// What the standard engine of `base64` reads out of a text, where it accepts
/// it.
pub uninterp spec fn base64_in(text: Seq<u8>) -> Option<Seq<u8>>;

/// Whether a character occurs in base64 text: a letter, a digit, `+`, `/` or
/// the padding `=`.
pub open spec fn is_base64(c: char) -> bool {
    ||| 'A' <= c <= 'Z'
    ||| 'a' <= c <= 'z'
    ||| '0' <= c <= '9'
    ||| c == '+'
    ||| c == '/'
    ||| c == '='
}

/// Whether the base64 text of so many bytes can be held in memory.
pub open spec fn fits(len: nat) -> bool {
    4 * ((len + 2) / 3) <= isize::MAX
}

/// Calls `Engine::encode` of `base64` with the standard alphabet and padding.
/// The result depends on the bytes alone, holds no character outside the
/// alphabet and the padding, and is read back as the bytes. It panics where
/// the text would be too long for memory.
#[verifier::external_body]
pub(crate) fn encode_base64(data: &[u8]) -> (s: String)
    requires
        fits(data@.len()),
    ensures
        s@ == base64_of(data@),
        forall|i: int| 0 <= i < s@.len() ==> is_base64(#[trigger] s@[i]),
        base64_in(encode_utf8(s@)) == Some(data@),
{
    STANDARD.encode(data)
}

/// Calls `Engine::decode` of `base64` with the standard alphabet; padding must
/// be there. Whether the text is accepted, and what it then stands for,
/// depends on the text alone.
#[verifier::external_body]
pub(crate) fn decode_base64(text: &[u8]) -> (r: Option<Vec<u8>>)
    ensures
        match r {
            Some(v) => base64_in(text@) == Some(v@),
            None => base64_in(text@) is None,
        },
{
    STANDARD.decode(text).ok()
}

} // verus!
