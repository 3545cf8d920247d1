//! The write side: integers and strings put onto a byte stream.
use vstd::prelude::*;
use vstd::slice::slice_subrange;
use vstd::utf8::encode_utf8;
use crate::codec::{be_bytes, be_encode, lemma_be_bytes_len, lemma_pow256_values, to_twos, twos};
use crate::error::ByteError;
use crate::frame::{LengthPrefix, frame};

verus! {

/// The stream went from holding `before` to holding `after` by taking a front part of `bytes`.
pub open spec fn wrote_part(before: Seq<u8>, after: Seq<u8>, bytes: Seq<u8>) -> bool {
    &&& before.len() <= after.len() <= before.len() + bytes.len()
    &&& after == before + bytes.take(after.len() - before.len())
}

/// The failures that writing `bytes` may end in, and what the stream holds after one.
pub open spec fn write_failure(
    before: Seq<u8>,
    after: Seq<u8>,
    infallible: bool,
    bytes: Seq<u8>,
    e: ByteError,
) -> bool {
    &&& e is Io || e is WriteZero
    &&& !infallible
    &&& wrote_part(before, after, bytes)
}

/// A writable byte stream, and the encoders built on it.
pub trait WriteBytes {
    /// Every byte that the stream has accepted, in order. A stream verified against this trait
    /// defines it; the default describes a stream that has accepted nothing.
    open spec fn written(&self) -> Seq<u8> {
        Seq::empty()
    }

    /// Whether the transport under the stream never fails and always accepts bytes. By default
    /// it may fail on any call.
    open spec fn infallible(&self) -> bool {
        false
    }

    /// Offers `bytes` to the stream, which accepts a front part of them and says how long it is.
    fn write_some(&mut self, bytes: &[u8]) -> (r: Result<usize, ByteError>)
        ensures
            final(self).infallible() == old(self).infallible(),
            match r {
                Ok(k) => k <= bytes@.len() && final(self).written() == old(self).written()
                    + bytes@.take(k as int),
                Err(e) => e is Io && !old(self).infallible() && final(self).written() == old(
                    self,
                ).written(),
            },
            old(self).infallible() ==> (r matches Ok(k) && (bytes@.len() > 0 ==> k > 0)),
    ;

    /// Writes all of `bytes`, offering the rest again after each partial write.
    fn write_all(&mut self, bytes: &[u8]) -> (r: Result<(), ByteError>)
        ensures
            final(self).infallible() == old(self).infallible(),
            match r {
                Ok(()) => final(self).written() == old(self).written() + bytes@,
                Err(e) => write_failure(
                    old(self).written(),
                    final(self).written(),
                    old(self).infallible(),
                    bytes@,
                    e,
                ),
            },
            old(self).infallible() ==> r is Ok,
    {
        let mut done: usize = 0;
        while done < bytes.len()
            invariant
                done <= bytes@.len(),
                self.written() == old(self).written() + bytes@.take(done as int),
                self.infallible() == old(self).infallible(),
            decreases bytes@.len() - done,
        {
            let rest = slice_subrange(bytes, done, bytes.len());
            match self.write_some(rest) {
                Ok(k) => {
                    if k == 0 {
                        return Err(ByteError::WriteZero);
                    }
                    proof {
                        assert(bytes@.take(done as int) + rest@.take(k as int) =~= bytes@.take(
                            done + k,
                        ));
                    }
                    done = done + k;
                },
                Err(e) => {
                    return Err(e);
                },
            }
        }
        assert(bytes@.take(done as int) =~= bytes@);
        Ok(())
    }

    /// Writes an unsigned 8-bit integer: 1 byte, big-endian.
    fn write_u8(&mut self, number: u8) -> (r: Result<(), ByteError>)
        ensures
            final(self).infallible() == old(self).infallible(),
            match r {
                Ok(()) => final(self).written() == old(self).written()
                    + be_bytes(number as nat, 1),
                Err(e) => write_failure(
                    old(self).written(),
                    final(self).written(),
                    old(self).infallible(),
                    be_bytes(number as nat, 1),
                    e,
                ),
            },
            old(self).infallible() ==> r is Ok,
    {
        let bytes = be_encode(number as u128, 1);
        self.write_all(bytes.as_slice())
    }

    /// Writes a signed 8-bit integer: 1 byte, big-endian, two's complement.
    fn write_i8(&mut self, number: i8) -> (r: Result<(), ByteError>)
        ensures
            final(self).infallible() == old(self).infallible(),
            match r {
                Ok(()) => final(self).written() == old(self).written()
                    + be_bytes(twos(number as int, 1), 1),
                Err(e) => write_failure(
                    old(self).written(),
                    final(self).written(),
                    old(self).infallible(),
                    be_bytes(twos(number as int, 1), 1),
                    e,
                ),
            },
            old(self).infallible() ==> r is Ok,
    {
        proof {
            lemma_pow256_values();
        }
        let bytes = be_encode(to_twos(number as i128, 1), 1);
        self.write_all(bytes.as_slice())
    }

    /// Writes an unsigned 16-bit integer: 2 bytes, big-endian.
    fn write_u16(&mut self, number: u16) -> (r: Result<(), ByteError>)
        ensures
            final(self).infallible() == old(self).infallible(),
            match r {
                Ok(()) => final(self).written() == old(self).written()
                    + be_bytes(number as nat, 2),
                Err(e) => write_failure(
                    old(self).written(),
                    final(self).written(),
                    old(self).infallible(),
                    be_bytes(number as nat, 2),
                    e,
                ),
            },
            old(self).infallible() ==> r is Ok,
    {
        let bytes = be_encode(number as u128, 2);
        self.write_all(bytes.as_slice())
    }

    /// Writes a signed 16-bit integer: 2 bytes, big-endian, two's complement.
    fn write_i16(&mut self, number: i16) -> (r: Result<(), ByteError>)
        ensures
            final(self).infallible() == old(self).infallible(),
            match r {
                Ok(()) => final(self).written() == old(self).written()
                    + be_bytes(twos(number as int, 2), 2),
                Err(e) => write_failure(
                    old(self).written(),
                    final(self).written(),
                    old(self).infallible(),
                    be_bytes(twos(number as int, 2), 2),
                    e,
                ),
            },
            old(self).infallible() ==> r is Ok,
    {
        proof {
            lemma_pow256_values();
        }
        let bytes = be_encode(to_twos(number as i128, 2), 2);
        self.write_all(bytes.as_slice())
    }

    /// Writes an unsigned 32-bit integer: 4 bytes, big-endian.
    fn write_u32(&mut self, number: u32) -> (r: Result<(), ByteError>)
        ensures
            final(self).infallible() == old(self).infallible(),
            match r {
                Ok(()) => final(self).written() == old(self).written()
                    + be_bytes(number as nat, 4),
                Err(e) => write_failure(
                    old(self).written(),
                    final(self).written(),
                    old(self).infallible(),
                    be_bytes(number as nat, 4),
                    e,
                ),
            },
            old(self).infallible() ==> r is Ok,
    {
        let bytes = be_encode(number as u128, 4);
        self.write_all(bytes.as_slice())
    }

    /// Writes a signed 32-bit integer: 4 bytes, big-endian, two's complement.
    fn write_i32(&mut self, number: i32) -> (r: Result<(), ByteError>)
        ensures
            final(self).infallible() == old(self).infallible(),
            match r {
                Ok(()) => final(self).written() == old(self).written()
                    + be_bytes(twos(number as int, 4), 4),
                Err(e) => write_failure(
                    old(self).written(),
                    final(self).written(),
                    old(self).infallible(),
                    be_bytes(twos(number as int, 4), 4),
                    e,
                ),
            },
            old(self).infallible() ==> r is Ok,
    {
        proof {
            lemma_pow256_values();
        }
        let bytes = be_encode(to_twos(number as i128, 4), 4);
        self.write_all(bytes.as_slice())
    }

    /// Writes an unsigned 64-bit integer: 8 bytes, big-endian.
    fn write_u64(&mut self, number: u64) -> (r: Result<(), ByteError>)
        ensures
            final(self).infallible() == old(self).infallible(),
            match r {
                Ok(()) => final(self).written() == old(self).written()
                    + be_bytes(number as nat, 8),
                Err(e) => write_failure(
                    old(self).written(),
                    final(self).written(),
                    old(self).infallible(),
                    be_bytes(number as nat, 8),
                    e,
                ),
            },
            old(self).infallible() ==> r is Ok,
    {
        let bytes = be_encode(number as u128, 8);
        self.write_all(bytes.as_slice())
    }

    /// Writes a signed 64-bit integer: 8 bytes, big-endian, two's complement.
    fn write_i64(&mut self, number: i64) -> (r: Result<(), ByteError>)
        ensures
            final(self).infallible() == old(self).infallible(),
            match r {
                Ok(()) => final(self).written() == old(self).written()
                    + be_bytes(twos(number as int, 8), 8),
                Err(e) => write_failure(
                    old(self).written(),
                    final(self).written(),
                    old(self).infallible(),
                    be_bytes(twos(number as int, 8), 8),
                    e,
                ),
            },
            old(self).infallible() ==> r is Ok,
    {
        proof {
            lemma_pow256_values();
        }
        let bytes = be_encode(to_twos(number as i128, 8), 8);
        self.write_all(bytes.as_slice())
    }

    /// Writes an unsigned 128-bit integer: 16 bytes, big-endian.
    fn write_u128(&mut self, number: u128) -> (r: Result<(), ByteError>)
        ensures
            final(self).infallible() == old(self).infallible(),
            match r {
                Ok(()) => final(self).written() == old(self).written()
                    + be_bytes(number as nat, 16),
                Err(e) => write_failure(
                    old(self).written(),
                    final(self).written(),
                    old(self).infallible(),
                    be_bytes(number as nat, 16),
                    e,
                ),
            },
            old(self).infallible() ==> r is Ok,
    {
        let bytes = be_encode(number as u128, 16);
        self.write_all(bytes.as_slice())
    }

    /// Writes a signed 128-bit integer: 16 bytes, big-endian, two's complement.
    fn write_i128(&mut self, number: i128) -> (r: Result<(), ByteError>)
        ensures
            final(self).infallible() == old(self).infallible(),
            match r {
                Ok(()) => final(self).written() == old(self).written()
                    + be_bytes(twos(number as int, 16), 16),
                Err(e) => write_failure(
                    old(self).written(),
                    final(self).written(),
                    old(self).infallible(),
                    be_bytes(twos(number as int, 16), 16),
                    e,
                ),
            },
            old(self).infallible() ==> r is Ok,
    {
        proof {
            lemma_pow256_values();
        }
        let bytes = be_encode(to_twos(number as i128, 16), 16);
        self.write_all(bytes.as_slice())
    }

    /// Writes a string: its UTF-8 byte length as an unsigned integer of the width that `prefix`
    /// names, then its UTF-8 bytes. A string too long for the prefix is refused before anything
    /// is written.
    fn write_string(&mut self, prefix: LengthPrefix, string: String) -> (r: Result<(), ByteError>)
        ensures
            final(self).infallible() == old(self).infallible(),
            match r {
                Ok(()) => {
                    &&& prefix.can_hold(encode_utf8(string@).len())
                    &&& final(self).written() == old(self).written() + frame(prefix, string@)
                },
                Err(ByteError::LengthOverflow) => {
                    &&& !prefix.can_hold(encode_utf8(string@).len())
                    &&& final(self).written() == old(self).written()
                },
                Err(e) => {
                    &&& prefix.can_hold(encode_utf8(string@).len())
                    &&& write_failure(
                        old(self).written(),
                        final(self).written(),
                        old(self).infallible(),
                        frame(prefix, string@),
                        e,
                    )
                },
            },
            old(self).infallible() ==> (r is Ok <==> prefix.can_hold(encode_utf8(string@).len())),
    {
        let bytes = string.as_str().as_bytes();
        let len = bytes.len();
        let ghost w = prefix.width();
        let ghost head = be_bytes(len as nat, w);
        proof {
            lemma_pow256_values();
            lemma_be_bytes_len(len as nat, w);
        }
        let written = match prefix {
            LengthPrefix::U8 => {
                if len > 0xFF {
                    return Err(ByteError::LengthOverflow);
                }
                self.write_u8(len as u8)
            },
            LengthPrefix::U16 => {
                if len > 0xFFFF {
                    return Err(ByteError::LengthOverflow);
                }
                self.write_u16(len as u16)
            },
            LengthPrefix::U32 => {
                if len > 0xFFFF_FFFF {
                    return Err(ByteError::LengthOverflow);
                }
                self.write_u32(len as u32)
            },
        };
        let ghost mid = self.written();
        match written {
            Ok(()) => {},
            Err(e) => {
                proof {
                    let k = mid.len() - old(self).written().len();
                    assert(head.take(k) =~= frame(prefix, string@).take(k));
                }
                return Err(e);
            },
        }
        let r = self.write_all(bytes);
        proof {
            let f = frame(prefix, string@);
            assert(bytes@ == encode_utf8(string@));
            assert(f =~= head + bytes@);
            if r is Ok {
                assert(self.written() =~= old(self).written() + f);
            }
            if r is Err {
                let k = self.written().len() - mid.len();
                assert(head + bytes@.take(k) =~= f.take(w + k));
                assert(self.written() =~= old(self).written() + f.take(w + k));
            }
        }
        r
    }
}

} // verus!
