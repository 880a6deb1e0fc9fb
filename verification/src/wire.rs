//! A small length-prefixed binary format: little-endian integers and UTF-8
//! text spans, with exact round-trip guarantees.

use vstd::prelude::*;

verus! {

use vstd::string::StrSliceExecFns;
use vstd::string::StringSliceAdditionalSpecFns;
use vstd::string::StringExecFns;
use vstd::utf8::{encode_utf8, valid_utf8};
use crate::error::Error;

/// The eight little-endian bytes of a `u64`.
pub open spec fn u64_le(x: u64) -> Seq<u8> {
    seq![
        x as u8,
        (x >> 8) as u8,
        (x >> 16) as u8,
        (x >> 24) as u8,
        (x >> 32) as u8,
        (x >> 40) as u8,
        (x >> 48) as u8,
        (x >> 56) as u8,
    ]
}

/// Two numbers with the same little-endian bytes are the same number.
pub proof fn lemma_u64_le_injective(a: u64, b: u64)
    requires
        u64_le(a) == u64_le(b),
    ensures
        a == b,
{
    assert(u64_le(a)[0] == u64_le(b)[0]);
    assert(u64_le(a)[1] == u64_le(b)[1]);
    assert(u64_le(a)[2] == u64_le(b)[2]);
    assert(u64_le(a)[3] == u64_le(b)[3]);
    assert(u64_le(a)[4] == u64_le(b)[4]);
    assert(u64_le(a)[5] == u64_le(b)[5]);
    assert(u64_le(a)[6] == u64_le(b)[6]);
    assert((a as u8 == b as u8 && (a >> 8) as u8 == (b >> 8) as u8 && (a >> 16) as u8 == (b
        >> 16) as u8 && (a >> 24) as u8 == (b >> 24) as u8 && (a >> 32) as u8 == (b >> 32) as u8
        && (a >> 40) as u8 == (b >> 40) as u8 && (a >> 48) as u8 == (b >> 48) as u8 && (a
        >> 56) as u8 == (b >> 56) as u8) ==> a == b) by (bit_vector);
}

/// Appends the little-endian bytes of `x`.
pub fn put_u64(out: &mut Vec<u8>, x: u64)
    ensures
        final(out)@ == old(out)@ + u64_le(x),
{
    out.push(x as u8);
    out.push((x >> 8) as u8);
    out.push((x >> 16) as u8);
    out.push((x >> 24) as u8);
    out.push((x >> 32) as u8);
    out.push((x >> 40) as u8);
    out.push((x >> 48) as u8);
    out.push((x >> 56) as u8);
    proof {
        assert(out@ =~= old(out)@ + u64_le(x));
    }
}

/// Reads the `u64` whose little-endian bytes sit at `off`.
pub fn get_u64(bytes: &Vec<u8>, off: usize) -> (x: u64)
    requires
        off + 8 <= bytes@.len(),
    ensures
        u64_le(x) == bytes@.subrange(off as int, off + 8),
{
    let n = bytes.len();
    let b0 = bytes[off];
    let b1 = bytes[off + 1];
    let b2 = bytes[off + 2];
    let b3 = bytes[off + 3];
    let b4 = bytes[off + 4];
    let b5 = bytes[off + 5];
    let b6 = bytes[off + 6];
    let b7 = bytes[off + 7];
    let x: u64 = (b0 as u64) | ((b1 as u64) << 8) | ((b2 as u64) << 16) | ((b3 as u64) << 24) | (
    (b4 as u64) << 32) | ((b5 as u64) << 40) | ((b6 as u64) << 48) | ((b7 as u64) << 56);
    proof {
        assert(x as u8 == b0 && (x >> 8) as u8 == b1 && (x >> 16) as u8 == b2 && (x >> 24) as u8
            == b3 && (x >> 32) as u8 == b4 && (x >> 40) as u8 == b5 && (x >> 48) as u8 == b6 && (
        x >> 56) as u8 == b7) by (bit_vector)
            requires
                x == (b0 as u64) | ((b1 as u64) << 8) | ((b2 as u64) << 16) | ((b3 as u64) << 24)
                    | ((b4 as u64) << 32) | ((b5 as u64) << 40) | ((b6 as u64) << 48) | ((
                b7 as u64) << 56),
        ;
        assert(u64_le(x) =~= bytes@.subrange(off as int, off + 8));
    }
    x
}

/// Appends a length-prefixed UTF-8 span for the text.
pub fn put_chars(out: &mut Vec<u8>, s: &str)
    ensures
        final(out)@ == old(out)@ + u64_le(s.spec_bytes().len() as u64) + s.spec_bytes(),
{
    let b = s.as_bytes();
    put_u64(out, b.len() as u64);
    let ghost mid = out@;
    let mut i: usize = 0;
    while i < b.len()
        invariant
            0 <= i <= b@.len(),
            b@ == s.spec_bytes(),
            out@ == mid + b@.take(i as int),
        decreases b@.len() - i,
    {
        let byte = *vstd::slice::slice_index_get(b, i);
        out.push(byte);
        proof {
            assert(mid + b@.take(i + 1) =~= (mid + b@.take(i as int)).push(b@[i as int]));
        }
        i += 1;
    }
    proof {
        assert(b@.take(b@.len() as int) =~= b@);
        assert(out@ =~= old(out)@ + u64_le(s.spec_bytes().len() as u64) + s.spec_bytes());
    }
}

#[verifier::external_type_specification]
#[verifier::external_body]
pub struct ExUtf8Error(std::str::Utf8Error);

/// Relies on `std::str::from_utf8`: it succeeds exactly on valid UTF-8 and
/// returns the text those bytes spell.
pub assume_specification[ std::str::from_utf8 ](v: &[u8]) -> (res: Result<
    &str,
    std::str::Utf8Error,
>)
    ensures
        match res {
            Ok(s) => valid_utf8(v@) && s.spec_bytes() == v@,
            Err(_) => !valid_utf8(v@),
        },
;

/// Reads the UTF-8 span at `from..to` back into text.
pub fn get_text(bytes: &Vec<u8>, from: usize, to: usize) -> (r: Result<String, Error>)
    requires
        from <= to <= bytes@.len(),
    ensures
        match r {
            Ok(s) => encode_utf8(s@) == bytes@.subrange(from as int, to as int),
            Err(_) => !valid_utf8(bytes@.subrange(from as int, to as int)),
        },
{
    proof {
        reveal_strlit("invalid text encoding");
    }
    let region = vstd::slice::slice_subrange(bytes.as_slice(), from, to);
    match std::str::from_utf8(region) {
        Ok(s) => {
            proof {
                broadcast use vstd::utf8::encode_utf8_valid_utf8;

            }
            Ok(String::from_str(s))
        },
        Err(_) => Err(Error::InvalidData(String::from_str("invalid text encoding"))),
    }
}

/// UTF-8 encoding is injective: texts with the same bytes are the same.
pub proof fn lemma_encode_utf8_injective(a: Seq<char>, b: Seq<char>)
    requires
        encode_utf8(a) == encode_utf8(b),
    ensures
        a == b,
{
    broadcast use vstd::utf8::encode_utf8_decode_utf8;

    assert(vstd::utf8::decode_utf8(encode_utf8(a)) == a);
    assert(vstd::utf8::decode_utf8(encode_utf8(b)) == b);
}

} // verus!
