//! What holds across the encoders and the decoders.
use vstd::prelude::*;
use vstd::utf8::{
    decode_utf8, encode_utf8, encode_utf8_decode_utf8, encode_utf8_valid_utf8, valid_utf8,
};
use crate::codec::{
    be_bytes, be_value, fits_signed, lemma_be_bytes_len, lemma_be_bytes_of_value,
    lemma_be_value_bound, lemma_be_value_of_bytes, lemma_pow256_values, pow256, signed_of, twos,
};
use crate::frame::{LengthPrefix, announced_len, frame, frame_complete, frame_end, payload};
use crate::read::consumed;

verus! {

/// Every value of each native integer type is representable at that type's width: `n` bytes
/// hold the unsigned numbers below `256^n` and the signed numbers that `fits_signed` admits.
pub proof fn law_native_ranges(
    a: u8,
    b: u16,
    c: u32,
    d: u64,
    e: u128,
    f: i8,
    g: i16,
    h: i32,
    i: i64,
    j: i128,
)
    ensures
        a < pow256(1) && b < pow256(2) && c < pow256(4) && d < pow256(8) && e < pow256(16),
        fits_signed(f as int, 1) && fits_signed(g as int, 2) && fits_signed(h as int, 4),
        fits_signed(i as int, 8) && fits_signed(j as int, 16),
{
    lemma_pow256_values();
}

/// An unsigned number that `n` bytes can hold, once encoded, decodes to itself, whatever
/// follows it on the stream; the decoder consumes exactly its `n` bytes.
pub proof fn law_unsigned_round_trip(v: nat, n: nat, rest: Seq<u8>)
    requires
        v < pow256(n),
    ensures
        consumed(be_bytes(v, n) + rest, rest, n),
        be_value((be_bytes(v, n) + rest).take(n as int)) == v,
{
    let b = be_bytes(v, n);
    lemma_be_bytes_len(v, n);
    lemma_be_value_of_bytes(v, n);
    assert((b + rest).take(n as int) =~= b);
    assert((b + rest).skip(n as int) =~= rest);
}

/// A signed number that `n` bytes can hold, once encoded in two's complement, decodes to
/// itself, whatever follows it on the stream; the decoder consumes exactly its `n` bytes.
pub proof fn law_signed_round_trip(v: int, n: nat, rest: Seq<u8>)
    requires
        1 <= n,
        fits_signed(v, n),
    ensures
        consumed(be_bytes(twos(v, n), n) + rest, rest, n),
        signed_of(be_value((be_bytes(twos(v, n), n) + rest).take(n as int)), n) == v,
{
    law_unsigned_round_trip(twos(v, n), n, rest);
}

/// Any `n` bytes, decoded as an unsigned number and encoded again, come back unchanged.
pub proof fn law_unsigned_bytes_round_trip(bytes: Seq<u8>)
    ensures
        be_bytes(be_value(bytes), bytes.len()) == bytes,
{
    lemma_be_bytes_of_value(bytes);
}

/// Any `n >= 1` bytes, decoded as a signed number and encoded again, come back unchanged.
pub proof fn law_signed_bytes_round_trip(bytes: Seq<u8>)
    requires
        1 <= bytes.len(),
    ensures
        be_bytes(twos(signed_of(be_value(bytes), bytes.len()), bytes.len()), bytes.len()) == bytes,
{
    lemma_be_value_bound(bytes);
    lemma_be_bytes_of_value(bytes);
}

/// A string whose UTF-8 length the prefix can announce, once written, reads back as the same
/// text with the same prefix, whatever follows it on the stream; the reader consumes exactly
/// its frame.
pub proof fn law_string_round_trip(prefix: LengthPrefix, text: Seq<char>, rest: Seq<u8>)
    requires
        prefix.can_hold(encode_utf8(text).len()),
    ensures
        frame_complete(frame(prefix, text) + rest, prefix),
        announced_len(frame(prefix, text) + rest, prefix) == encode_utf8(text).len(),
        valid_utf8(payload(frame(prefix, text) + rest, prefix)),
        decode_utf8(payload(frame(prefix, text) + rest, prefix)) == text,
        (frame(prefix, text) + rest).skip(frame_end(frame(prefix, text) + rest, prefix)) == rest,
{
    let w = prefix.width();
    let bytes = encode_utf8(text);
    let len = bytes.len();
    let p = frame(prefix, text) + rest;
    law_unsigned_round_trip(len, w, bytes + rest);
    assert(p =~= be_bytes(len, w) + (bytes + rest));
    assert(payload(p, prefix) =~= bytes);
    assert(p.skip(frame_end(p, prefix)) =~= rest);
    encode_utf8_valid_utf8(text);
    encode_utf8_decode_utf8(text);
}

} // verus!
