//! Length-prefixed strings: the choice of prefix and the layout of a frame.
use vstd::prelude::*;
use vstd::utf8::encode_utf8;
use crate::codec::{be_bytes, be_value, pow256};

verus! {

/// Which unsigned integer carries the byte length in front of a string.
#[derive(Clone, Copy, Debug, PartialEq, Eq, Structural)]
pub enum LengthPrefix {
    U8,
    U16,
    U32,
}

impl LengthPrefix {
    /// The prefix's size in bytes.
    pub open spec fn width(self) -> nat {
        match self {
            LengthPrefix::U8 => 1,
            LengthPrefix::U16 => 2,
            LengthPrefix::U32 => 4,
        }
    }

    /// Whether the prefix can announce a payload of `len` bytes.
    pub open spec fn can_hold(self, len: nat) -> bool {
        len < pow256(self.width())
    }
}

/// The bytes that stand for `text` on the wire: its UTF-8 byte length, then its UTF-8 bytes.
pub open spec fn frame(prefix: LengthPrefix, text: Seq<char>) -> Seq<u8> {
    be_bytes(encode_utf8(text).len(), prefix.width()) + encode_utf8(text)
}

/// The payload length that the prefix at the front of `bytes` announces.
pub open spec fn announced_len(bytes: Seq<u8>, prefix: LengthPrefix) -> nat {
    be_value(bytes.take(prefix.width() as int))
}

/// Where the payload of the frame at the front of `bytes` ends.
pub open spec fn frame_end(bytes: Seq<u8>, prefix: LengthPrefix) -> int {
    prefix.width() + announced_len(bytes, prefix) as int
}

/// The payload of the frame at the front of `bytes`.
pub open spec fn payload(bytes: Seq<u8>, prefix: LengthPrefix) -> Seq<u8> {
    bytes.subrange(prefix.width() as int, frame_end(bytes, prefix))
}

/// Whether the whole frame, prefix and payload, is at the front of `bytes`.
pub open spec fn frame_complete(bytes: Seq<u8>, prefix: LengthPrefix) -> bool {
    prefix.width() <= bytes.len() && frame_end(bytes, prefix) <= bytes.len()
}

} // verus!
