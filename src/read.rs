//! The read side: integers and strings taken from a byte stream.
use vstd::prelude::*;
use crate::codec::{
    be_decode, be_value, from_twos, lemma_be_value_bound, lemma_pow256_values, signed_of,
};
use crate::error::ByteError;
use crate::frame::{LengthPrefix, announced_len, frame_complete, frame_end, payload};
use vstd::utf8::{decode_utf8, valid_utf8};

verus! {

/// The outcome of a successful read of `n` bytes: exactly those were consumed.
pub open spec fn consumed(before: Seq<u8>, after: Seq<u8>, n: nat) -> bool {
    n <= before.len() && after == before.skip(n as int)
}

/// The failures that a read of `n` bytes may end in.
pub open spec fn read_failure(before: Seq<u8>, infallible: bool, n: nat, e: ByteError) -> bool {
    ||| e is EndOfStream && before.len() < n
    ||| e is Io && !infallible
}

/// Relies on `String::from_utf8`: it accepts exactly the byte sequences that are valid UTF-8,
/// and the string it returns holds the characters that those bytes encode.
#[verifier::external_body]
fn string_from_utf8(bytes: Vec<u8>) -> (r: Option<String>)
    ensures
        match r {
            Some(s) => valid_utf8(bytes@) && s@ == decode_utf8(bytes@),
            None => !valid_utf8(bytes@),
        },
{
    String::from_utf8(bytes).ok()
}

/// A readable byte stream, and the decoders built on it.
pub trait ReadBytes {
    /// The bytes that the stream will yield, in order. A stream verified against this trait
    /// defines it; the default describes a stream that has nothing left to yield.
    open spec fn pending(&self) -> Seq<u8> {
        Seq::empty()
    }

    /// Whether the transport under the stream never fails. By default it may fail on any call.
    open spec fn infallible(&self) -> bool {
        false
    }

    /// Takes up to `max` bytes from the front of the stream. An empty result for a positive
    /// `max` means that the stream has ended.
    fn read_some(&mut self, max: usize) -> (r: Result<Vec<u8>, ByteError>)
        ensures
            final(self).infallible() == old(self).infallible(),
            match r {
                Ok(b) => {
                    &&& b@.len() <= max
                    &&& b@.len() <= old(self).pending().len()
                    &&& b@ == old(self).pending().take(b@.len() as int)
                    &&& final(self).pending() == old(self).pending().skip(b@.len() as int)
                    &&& b@.len() == 0 ==> max == 0 || old(self).pending().len() == 0
                },
                Err(e) => e is Io && !old(self).infallible(),
            },
    ;

    /// Takes exactly `n` bytes from the front of the stream.
    fn read_exact(&mut self, n: usize) -> (r: Result<Vec<u8>, ByteError>)
        ensures
            final(self).infallible() == old(self).infallible(),
            match r {
                Ok(b) => {
                    &&& consumed(old(self).pending(), final(self).pending(), n as nat)
                    &&& b@ == old(self).pending().take(n as int)
                },
                Err(e) => read_failure(old(self).pending(), old(self).infallible(), n as nat, e),
            },
            old(self).infallible() ==> (r is Ok <==> n <= old(self).pending().len()),
    {
        let mut out: Vec<u8> = Vec::new();
        while out.len() < n
            invariant
                out@.len() <= n,
                old(self).pending() == out@ + self.pending(),
                self.infallible() == old(self).infallible(),
            decreases n - out@.len(),
        {
            let ghost before = self.pending();
            match self.read_some(n - out.len()) {
                Ok(mut chunk) => {
                    if chunk.len() == 0 {
                        return Err(ByteError::EndOfStream);
                    }
                    proof {
                        let k = chunk@.len() as int;
                        assert(before =~= before.take(k) + before.skip(k));
                        assert(out@ + chunk@ + self.pending() =~= out@ + (chunk@ + self.pending()));
                    }
                    out.append(&mut chunk);
                },
                Err(e) => {
                    return Err(e);
                },
            }
        }
        proof {
            assert(old(self).pending().take(n as int) =~= out@);
            assert(old(self).pending().skip(n as int) =~= self.pending());
        }
        Ok(out)
    }

    /// Reads an unsigned 8-bit integer: 1 byte, big-endian.
    fn read_u8(&mut self) -> (r: Result<u8, ByteError>)
        ensures
            final(self).infallible() == old(self).infallible(),
            match r {
                Ok(v) => {
                    &&& consumed(old(self).pending(), final(self).pending(), 1)
                    &&& v == be_value(old(self).pending().take(1))
                },
                Err(e) => read_failure(old(self).pending(), old(self).infallible(), 1, e),
            },
            old(self).infallible() ==> (r is Ok <==> 1 <= old(self).pending().len()),
    {
        match self.read_exact(1) {
            Ok(b) => {
                let u = be_decode(b.as_slice());
                proof {
                    lemma_be_value_bound(b@);
                    lemma_pow256_values();
                }
                Ok(u as u8)
            },
            Err(e) => Err(e),
        }
    }

    /// Reads a signed 8-bit integer: 1 byte, big-endian, two's complement.
    fn read_i8(&mut self) -> (r: Result<i8, ByteError>)
        ensures
            final(self).infallible() == old(self).infallible(),
            match r {
                Ok(v) => {
                    &&& consumed(old(self).pending(), final(self).pending(), 1)
                    &&& v == signed_of(be_value(old(self).pending().take(1)), 1)
                },
                Err(e) => read_failure(old(self).pending(), old(self).infallible(), 1, e),
            },
            old(self).infallible() ==> (r is Ok <==> 1 <= old(self).pending().len()),
    {
        match self.read_exact(1) {
            Ok(b) => {
                let u = be_decode(b.as_slice());
                proof {
                    lemma_be_value_bound(b@);
                    lemma_pow256_values();
                }
                let x = from_twos(u, 1);
                Ok(x as i8)
            },
            Err(e) => Err(e),
        }
    }

    /// Reads an unsigned 16-bit integer: 2 bytes, big-endian.
    fn read_u16(&mut self) -> (r: Result<u16, ByteError>)
        ensures
            final(self).infallible() == old(self).infallible(),
            match r {
                Ok(v) => {
                    &&& consumed(old(self).pending(), final(self).pending(), 2)
                    &&& v == be_value(old(self).pending().take(2))
                },
                Err(e) => read_failure(old(self).pending(), old(self).infallible(), 2, e),
            },
            old(self).infallible() ==> (r is Ok <==> 2 <= old(self).pending().len()),
    {
        match self.read_exact(2) {
            Ok(b) => {
                let u = be_decode(b.as_slice());
                proof {
                    lemma_be_value_bound(b@);
                    lemma_pow256_values();
                }
                Ok(u as u16)
            },
            Err(e) => Err(e),
        }
    }

    /// Reads a signed 16-bit integer: 2 bytes, big-endian, two's complement.
    fn read_i16(&mut self) -> (r: Result<i16, ByteError>)
        ensures
            final(self).infallible() == old(self).infallible(),
            match r {
                Ok(v) => {
                    &&& consumed(old(self).pending(), final(self).pending(), 2)
                    &&& v == signed_of(be_value(old(self).pending().take(2)), 2)
                },
                Err(e) => read_failure(old(self).pending(), old(self).infallible(), 2, e),
            },
            old(self).infallible() ==> (r is Ok <==> 2 <= old(self).pending().len()),
    {
        match self.read_exact(2) {
            Ok(b) => {
                let u = be_decode(b.as_slice());
                proof {
                    lemma_be_value_bound(b@);
                    lemma_pow256_values();
                }
                let x = from_twos(u, 2);
                Ok(x as i16)
            },
            Err(e) => Err(e),
        }
    }

    /// Reads an unsigned 32-bit integer: 4 bytes, big-endian.
    fn read_u32(&mut self) -> (r: Result<u32, ByteError>)
        ensures
            final(self).infallible() == old(self).infallible(),
            match r {
                Ok(v) => {
                    &&& consumed(old(self).pending(), final(self).pending(), 4)
                    &&& v == be_value(old(self).pending().take(4))
                },
                Err(e) => read_failure(old(self).pending(), old(self).infallible(), 4, e),
            },
            old(self).infallible() ==> (r is Ok <==> 4 <= old(self).pending().len()),
    {
        match self.read_exact(4) {
            Ok(b) => {
                let u = be_decode(b.as_slice());
                proof {
                    lemma_be_value_bound(b@);
                    lemma_pow256_values();
                }
                Ok(u as u32)
            },
            Err(e) => Err(e),
        }
    }

    /// Reads a signed 32-bit integer: 4 bytes, big-endian, two's complement.
    fn read_i32(&mut self) -> (r: Result<i32, ByteError>)
        ensures
            final(self).infallible() == old(self).infallible(),
            match r {
                Ok(v) => {
                    &&& consumed(old(self).pending(), final(self).pending(), 4)
                    &&& v == signed_of(be_value(old(self).pending().take(4)), 4)
                },
                Err(e) => read_failure(old(self).pending(), old(self).infallible(), 4, e),
            },
            old(self).infallible() ==> (r is Ok <==> 4 <= old(self).pending().len()),
    {
        match self.read_exact(4) {
            Ok(b) => {
                let u = be_decode(b.as_slice());
                proof {
                    lemma_be_value_bound(b@);
                    lemma_pow256_values();
                }
                let x = from_twos(u, 4);
                Ok(x as i32)
            },
            Err(e) => Err(e),
        }
    }

    /// Reads an unsigned 64-bit integer: 8 bytes, big-endian.
    fn read_u64(&mut self) -> (r: Result<u64, ByteError>)
        ensures
            final(self).infallible() == old(self).infallible(),
            match r {
                Ok(v) => {
                    &&& consumed(old(self).pending(), final(self).pending(), 8)
                    &&& v == be_value(old(self).pending().take(8))
                },
                Err(e) => read_failure(old(self).pending(), old(self).infallible(), 8, e),
            },
            old(self).infallible() ==> (r is Ok <==> 8 <= old(self).pending().len()),
    {
        match self.read_exact(8) {
            Ok(b) => {
                let u = be_decode(b.as_slice());
                proof {
                    lemma_be_value_bound(b@);
                    lemma_pow256_values();
                }
                Ok(u as u64)
            },
            Err(e) => Err(e),
        }
    }

    /// Reads a signed 64-bit integer: 8 bytes, big-endian, two's complement.
    fn read_i64(&mut self) -> (r: Result<i64, ByteError>)
        ensures
            final(self).infallible() == old(self).infallible(),
            match r {
                Ok(v) => {
                    &&& consumed(old(self).pending(), final(self).pending(), 8)
                    &&& v == signed_of(be_value(old(self).pending().take(8)), 8)
                },
                Err(e) => read_failure(old(self).pending(), old(self).infallible(), 8, e),
            },
            old(self).infallible() ==> (r is Ok <==> 8 <= old(self).pending().len()),
    {
        match self.read_exact(8) {
            Ok(b) => {
                let u = be_decode(b.as_slice());
                proof {
                    lemma_be_value_bound(b@);
                    lemma_pow256_values();
                }
                let x = from_twos(u, 8);
                Ok(x as i64)
            },
            Err(e) => Err(e),
        }
    }

    /// Reads an unsigned 128-bit integer: 16 bytes, big-endian.
    fn read_u128(&mut self) -> (r: Result<u128, ByteError>)
        ensures
            final(self).infallible() == old(self).infallible(),
            match r {
                Ok(v) => {
                    &&& consumed(old(self).pending(), final(self).pending(), 16)
                    &&& v == be_value(old(self).pending().take(16))
                },
                Err(e) => read_failure(old(self).pending(), old(self).infallible(), 16, e),
            },
            old(self).infallible() ==> (r is Ok <==> 16 <= old(self).pending().len()),
    {
        match self.read_exact(16) {
            Ok(b) => {
                let u = be_decode(b.as_slice());
                proof {
                    lemma_be_value_bound(b@);
                    lemma_pow256_values();
                }
                Ok(u as u128)
            },
            Err(e) => Err(e),
        }
    }

    /// Reads a signed 128-bit integer: 16 bytes, big-endian, two's complement.
    fn read_i128(&mut self) -> (r: Result<i128, ByteError>)
        ensures
            final(self).infallible() == old(self).infallible(),
            match r {
                Ok(v) => {
                    &&& consumed(old(self).pending(), final(self).pending(), 16)
                    &&& v == signed_of(be_value(old(self).pending().take(16)), 16)
                },
                Err(e) => read_failure(old(self).pending(), old(self).infallible(), 16, e),
            },
            old(self).infallible() ==> (r is Ok <==> 16 <= old(self).pending().len()),
    {
        match self.read_exact(16) {
            Ok(b) => {
                let u = be_decode(b.as_slice());
                proof {
                    lemma_be_value_bound(b@);
                    lemma_pow256_values();
                }
                let x = from_twos(u, 16);
                Ok(x as i128)
            },
            Err(e) => Err(e),
        }
    }

    /// Reads a string: its UTF-8 byte length as an unsigned integer of the width that `prefix`
    /// names, then that many bytes of UTF-8. The payload is consumed even when it is not valid
    /// UTF-8.
    fn read_string(&mut self, prefix: LengthPrefix) -> (r: Result<String, ByteError>)
        ensures
            final(self).infallible() == old(self).infallible(),
            ({
                let p = old(self).pending();
                match r {
                    Ok(s) => {
                        &&& frame_complete(p, prefix)
                        &&& valid_utf8(payload(p, prefix))
                        &&& s@ == decode_utf8(payload(p, prefix))
                        &&& final(self).pending() == p.skip(frame_end(p, prefix))
                    },
                    Err(ByteError::EndOfStream) => p.len() < prefix.width(),
                    Err(ByteError::TruncatedPayload) => prefix.width() <= p.len() < frame_end(
                        p,
                        prefix,
                    ),
                    Err(ByteError::InvalidUtf8) => {
                        &&& frame_complete(p, prefix)
                        &&& !valid_utf8(payload(p, prefix))
                        &&& final(self).pending() == p.skip(frame_end(p, prefix))
                    },
                    Err(ByteError::Io(_)) => !old(self).infallible(),
                    Err(_) => false,
                }
            }),
            old(self).infallible() ==> (r is Ok <==> frame_complete(old(self).pending(), prefix)
                && valid_utf8(payload(old(self).pending(), prefix))),
    {
        let ghost p = self.pending();
        let len: usize = match prefix {
            LengthPrefix::U8 => match self.read_u8() {
                Ok(v) => v as usize,
                Err(e) => {
                    return Err(e);
                },
            },
            LengthPrefix::U16 => match self.read_u16() {
                Ok(v) => v as usize,
                Err(e) => {
                    return Err(e);
                },
            },
            LengthPrefix::U32 => match self.read_u32() {
                Ok(v) => v as usize,
                Err(e) => {
                    return Err(e);
                },
            },
        };
        let ghost mid = self.pending();
        proof {
            let w = prefix.width() as int;
            assert(len == announced_len(p, prefix));
            assert(mid =~= p.skip(w));
            if mid.len() >= len {
                assert(mid.take(len as int) =~= payload(p, prefix));
                assert(mid.skip(len as int) =~= p.skip(frame_end(p, prefix)));
            }
        }
        let bytes = match self.read_exact(len) {
            Ok(b) => b,
            Err(ByteError::EndOfStream) => {
                return Err(ByteError::TruncatedPayload);
            },
            Err(e) => {
                return Err(e);
            },
        };
        match string_from_utf8(bytes) {
            Some(s) => Ok(s),
            None => Err(ByteError::InvalidUtf8),
        }
    }
}

} // verus!
