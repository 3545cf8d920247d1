//! Streams over bytes held in memory.
use vstd::prelude::*;
use crate::error::ByteError;
use crate::read::ReadBytes;
use crate::write::WriteBytes;

verus! {

/// A readable stream over a byte buffer, consumed from the front.
pub struct ByteReader {
    data: Vec<u8>,
    pos: usize,
}

impl ByteReader {
    #[verifier::type_invariant]
    spec fn position_in_bounds(self) -> bool {
        self.pos <= self.data@.len()
    }

    /// A stream that yields `data`, first byte first.
    pub fn new(data: Vec<u8>) -> (r: ByteReader)
        ensures
            r.pending() == data@,
    {
        let r = ByteReader { data, pos: 0 };
        assert(r.data@.skip(0) =~= r.data@);
        r
    }

    /// How many bytes the stream has yet to yield.
    pub fn remaining(&self) -> (n: usize)
        ensures
            n == self.pending().len(),
    {
        proof {
            use_type_invariant(self);
        }
        self.data.len() - self.pos
    }
}

impl ReadBytes for ByteReader {
    closed spec fn pending(&self) -> Seq<u8> {
        self.data@.skip(self.pos as int)
    }

    open spec fn infallible(&self) -> bool {
        true
    }

    fn read_some(&mut self, max: usize) -> (r: Result<Vec<u8>, ByteError>) {
        proof {
            use_type_invariant(&*self);
        }
        let avail = self.data.len() - self.pos;
        let k = if max < avail {
            max
        } else {
            avail
        };
        let end = self.pos + k;
        let mut out: Vec<u8> = Vec::new();
        let mut i: usize = self.pos;
        while i < end
            invariant
                self.pos <= i <= end <= self.data@.len(),
                out@ =~= self.data@.subrange(self.pos as int, i as int),
            decreases end - i,
        {
            out.push(self.data[i]);
            i = i + 1;
        }
        let ghost before = self.pending();
        self.pos = self.pos + k;
        proof {
            assert(out@ =~= before.take(k as int));
            assert(self.pending() =~= before.skip(k as int));
        }
        Ok(out)
    }
}

/// A writable stream that collects every byte it is given.
pub struct ByteWriter {
    data: Vec<u8>,
}

impl ByteWriter {
    /// A stream that holds no bytes yet.
    pub fn new() -> (w: ByteWriter)
        ensures
            w.written() == Seq::<u8>::empty(),
    {
        ByteWriter { data: Vec::new() }
    }

    /// The bytes written so far.
    pub fn as_slice(&self) -> (b: &[u8])
        ensures
            b@ == self.written(),
    {
        self.data.as_slice()
    }

    /// Gives up the stream for the bytes written to it.
    pub fn into_bytes(self) -> (b: Vec<u8>)
        ensures
            b@ == self.written(),
    {
        self.data
    }
}

impl WriteBytes for ByteWriter {
    closed spec fn written(&self) -> Seq<u8> {
        self.data@
    }

    open spec fn infallible(&self) -> bool {
        true
    }

    fn write_some(&mut self, bytes: &[u8]) -> (r: Result<usize, ByteError>) {
        let ghost before = self.data@;
        let mut i: usize = 0;
        while i < bytes.len()
            invariant
                i <= bytes@.len(),
                self.data@ =~= before + bytes@.take(i as int),
            decreases bytes@.len() - i,
        {
            self.data.push(bytes[i]);
            i = i + 1;
        }
        assert(bytes@.take(i as int) =~= bytes@.take(bytes@.len() as int));
        Ok(bytes.len())
    }
}

} // verus!
