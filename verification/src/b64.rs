//! The base64 line alphabet used by the transaction log, through the
//! `base64` crate's standard no-padding engine.

use vstd::prelude::*;

verus! {

/// The base64 text of a byte sequence, as the standard no-padding engine
/// writes it.
pub uninterp spec fn b64_of(bytes: Seq<u8>) -> Seq<char>;

/// The bytes a base64 text denotes, or `None` where the text is not the
/// canonical no-padding encoding of any bytes.
pub uninterp spec fn b64_decode_of(chars: Seq<char>) -> Option<Seq<u8>>;

/// Relies on `base64::Engine::encode` with `STANDARD_NO_PAD`: the output is
/// a pure function of the input, decodes back to the input, and uses only
/// the alphabet `A`-`Z`, `a`-`z`, `0`-`9`, `+`, `/` — never CR or LF.
#[verifier::external_body]
pub fn b64_encode(bytes: &Vec<u8>) -> (r: String)
    requires
        bytes@.len() < 0x1000000000000000,
    ensures
        r@ == b64_of(bytes@),
        b64_decode_of(r@) == Some(bytes@),
        forall|i: int| 0 <= i < r@.len() ==> (#[trigger] r@[i]) != '\r' && r@[i] != '\n',
        r@.len() == 0 <==> bytes@.len() == 0,
{
    base64::Engine::encode(&base64::engine::general_purpose::STANDARD_NO_PAD, bytes.as_slice())
}

/// Relies on `base64::Engine::decode` with `STANDARD_NO_PAD`: it accepts
/// exactly the canonical unpadded encodings and returns the encoded bytes.
#[verifier::external_body]
pub fn b64_decode(line: &str) -> (r: Result<Vec<u8>, ()>)
    ensures
        match r {
            Ok(v) => b64_decode_of(line@) == Some(v@),
            Err(_) => b64_decode_of(line@) is None,
        },
{
    match base64::Engine::decode(&base64::engine::general_purpose::STANDARD_NO_PAD, line) {
        Ok(v) => Ok(v),
        Err(_) => Err(()),
    }
}

} // verus!
