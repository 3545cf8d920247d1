use bytestream::error::ByteError;
use bytestream::frame::LengthPrefix;
use bytestream::read::ReadBytes;
use bytestream::write::WriteBytes;

/// Accepts at most `step` bytes per call, and none once `capacity` is used up.
struct Trickle {
    data: Vec<u8>,
    step: usize,
    capacity: usize,
}

impl WriteBytes for Trickle {
    fn write_some(&mut self, bytes: &[u8]) -> Result<usize, ByteError> {
        let room = self.capacity - self.data.len();
        let k = bytes.len().min(self.step).min(room);
        self.data.extend_from_slice(&bytes[..k]);
        Ok(k)
    }
}

/// Yields at most `step` bytes per call.
struct Dribble {
    data: Vec<u8>,
    pos: usize,
    step: usize,
}

impl ReadBytes for Dribble {
    fn read_some(&mut self, max: usize) -> Result<Vec<u8>, ByteError> {
        let k = max.min(self.step).min(self.data.len() - self.pos);
        let out = self.data[self.pos..self.pos + k].to_vec();
        self.pos += k;
        Ok(out)
    }
}

/// Fails every read and every write.
struct Broken;

impl ReadBytes for Broken {
    fn read_some(&mut self, _max: usize) -> Result<Vec<u8>, ByteError> {
        Err(ByteError::Io(std::io::Error::new(std::io::ErrorKind::BrokenPipe, "gone")))
    }
}

impl WriteBytes for Broken {
    fn write_some(&mut self, _bytes: &[u8]) -> Result<usize, ByteError> {
        Err(ByteError::Io(std::io::Error::new(std::io::ErrorKind::BrokenPipe, "gone")))
    }
}

#[test]
fn short_writes_are_retried_until_complete() {
    let mut w = Trickle { data: Vec::new(), step: 1, capacity: usize::MAX };
    w.write_u64(0x0102_0304_0506_0708).unwrap();
    w.write_string(LengthPrefix::U16, "abc".to_string()).unwrap();
    assert_eq!(w.data, vec![1, 2, 3, 4, 5, 6, 7, 8, 0, 3, b'a', b'b', b'c']);
}

#[test]
fn a_stream_that_stops_accepting_gives_write_zero() {
    let mut w = Trickle { data: Vec::new(), step: 3, capacity: 5 };
    assert!(matches!(w.write_u64(u64::MAX), Err(ByteError::WriteZero)));
    assert_eq!(w.data, vec![0xFF; 5]);
}

#[test]
fn short_reads_are_gathered_into_whole_values() {
    let mut r = Dribble { data: vec![0, 0, 1, 0, 0, 2, b'o', b'k'], pos: 0, step: 1 };
    assert_eq!(r.read_u32().unwrap(), 256);
    assert_eq!(r.read_string(LengthPrefix::U16).unwrap(), "ok");
    assert!(matches!(r.read_u8(), Err(ByteError::EndOfStream)));
}

#[test]
fn transport_failures_pass_through_unchanged() {
    match Broken.read_i16() {
        Err(ByteError::Io(e)) => assert_eq!(e.kind(), std::io::ErrorKind::BrokenPipe),
        other => panic!("unexpected {:?}", other),
    }
    match Broken.read_string(LengthPrefix::U8) {
        Err(ByteError::Io(e)) => assert_eq!(e.to_string(), "gone"),
        other => panic!("unexpected {:?}", other),
    }
    match Broken.write_string(LengthPrefix::U8, "x".to_string()) {
        Err(ByteError::Io(e)) => assert_eq!(e.kind(), std::io::ErrorKind::BrokenPipe),
        other => panic!("unexpected {:?}", other),
    }
    assert!(matches!(
        Broken.write_string(LengthPrefix::U8, "y".repeat(300)),
        Err(ByteError::LengthOverflow)
    ));
}
