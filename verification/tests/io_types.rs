use dstd::io::{chunk_step, seek_done, stream_len_result, transfer_step, c_message, stderr, stdin, stdout, Error, Read, Repr, Result, Seek, SeekFrom, Write};

#[test]
fn seek_flags() {
    assert_eq!(SeekFrom::Start(10).to_flags(), (10, 0));
    assert_eq!(SeekFrom::Current(-3).to_flags(), (-3, 1));
    assert_eq!(SeekFrom::End(0).to_flags(), (0, 2));
    assert_eq!(SeekFrom::Start(u64::MAX).to_flags(), (-1, 0));
}

#[test]
fn os_errors_carry_their_code() {
    let e = Error::from_raw_os_error(2);
    assert_eq!(e.raw_os_error(), Some(2));
    let e: Error = std::str::from_utf8(&[0xff]).unwrap_err().into();
    assert_eq!(e.raw_os_error(), None);
    assert_eq!(e, Error::from(std::str::from_utf8(&[0xc0]).unwrap_err()));
}

#[test]
fn c_message_stops_at_the_first_zero() {
    let mut buf = [0u8; 32];
    buf[..9].copy_from_slice(b"No access");
    assert_eq!(c_message(&buf), "No access");
    assert_eq!(c_message(b"\0abc"), "");
    assert_eq!(c_message(b"a\xffb\0c"), "a\u{fffd}b");
}

#[test]
fn standard_stream_descriptors() {
    assert_eq!(stdin().descriptor(), 0);
    assert_eq!(stdout().descriptor(), 1);
    assert_eq!(stderr().descriptor(), 2);
    assert_ne!(stdout(), stderr());
}

struct Cursor {
    pos: u64,
    len: u64,
    calls: Vec<SeekFrom>,
}

impl Seek for Cursor {
    fn seek(&mut self, pos: SeekFrom) -> Result<u64> {
        self.calls.push(pos);
        let target = match pos {
            SeekFrom::Start(n) => n as i128,
            SeekFrom::Current(d) => self.pos as i128 + d as i128,
            SeekFrom::End(d) => self.len as i128 + d as i128,
        };
        if target < 0 {
            return Err(Error::from_raw_os_error(22));
        }
        self.pos = target as u64;
        Ok(self.pos)
    }
}

#[test]
fn provided_seek_methods() {
    let mut c = Cursor { pos: 5, len: 40, calls: Vec::new() };
    assert_eq!(c.stream_len().unwrap(), 40);
    assert_eq!(c.pos, 5);
    assert_eq!(c.calls, vec![SeekFrom::Current(0), SeekFrom::End(0), SeekFrom::Start(5)]);
    assert_eq!(c.stream_position().unwrap(), 5);
    c.seek_relative(3).unwrap();
    assert_eq!(c.pos, 8);
    assert!(c.seek_relative(-100).is_err());
    c.rewind().unwrap();
    assert_eq!(c.pos, 0);
}

#[test]
fn error_kinds_compare() {
    assert_ne!(Error::from_raw_os_error(1), Error::from_raw_os_error(2));
    let _ = Repr::WriteZero;
}

struct Chunks {
    data: Vec<u8>,
    pos: usize,
    step: usize,
}

impl Read for Chunks {
    fn read(&mut self, buf: &mut [u8]) -> Result<usize> {
        let n = self.step.min(buf.len()).min(self.data.len() - self.pos);
        buf[..n].copy_from_slice(&self.data[self.pos..self.pos + n]);
        self.pos += n;
        Ok(n)
    }
}

struct Sink {
    out: Vec<u8>,
    step: usize,
}

impl Write for Sink {
    fn write(&mut self, buf: &[u8]) -> Result<usize> {
        let n = self.step.min(buf.len());
        self.out.extend_from_slice(&buf[..n]);
        Ok(n)
    }
}

#[test]
fn read_exact_fills_the_buffer_or_fails() {
    let mut r = Chunks { data: (0..10).collect(), pos: 0, step: 3 };
    let mut buf = [0u8; 7];
    r.read_exact(&mut buf).unwrap();
    assert_eq!(buf, [0, 1, 2, 3, 4, 5, 6]);
    let mut more = [0u8; 5];
    let e = r.read_exact(&mut more).unwrap_err();
    assert_eq!(e.repr(), Repr::UnexpectedEof);
}

#[test]
fn read_to_end_appends_everything() {
    let mut r = Chunks { data: (0..=255u8).cycle().take(1300).collect(), pos: 0, step: 100 };
    let mut buf = vec![9u8, 9];
    r.read_to_end(&mut buf).unwrap();
    assert_eq!(buf.len(), 1302);
    assert_eq!(&buf[..2], &[9, 9]);
    assert_eq!(buf[2..], r.data[..]);
}

struct Failing {
    first: Vec<u8>,
    sizes: Vec<usize>,
}

impl Read for Failing {
    fn read(&mut self, buf: &mut [u8]) -> Result<usize> {
        self.sizes.push(buf.len());
        if self.first.is_empty() {
            return Err(Error::from_raw_os_error(5));
        }
        let n = self.first.len().min(buf.len());
        buf[..n].copy_from_slice(&self.first[..n]);
        self.first.drain(..n);
        Ok(n)
    }
}

#[test]
fn read_to_end_fills_capacity_and_keeps_it_after_an_error() {
    let mut r = Failing { first: vec![1, 2, 3], sizes: Vec::new() };
    let mut buf: Vec<u8> = Vec::new();
    let e = r.read_to_end(&mut buf).unwrap_err();
    assert_eq!(e.raw_os_error(), Some(5));
    assert!(buf.len() >= 512);
    assert_eq!(buf.len(), buf.capacity());
    assert_eq!(&buf[..3], &[1, 2, 3]);
    assert!(buf[3..].iter().all(|b| *b == 0));
    assert_eq!(r.sizes, vec![buf.len(), buf.len() - 3]);
}

#[test]
fn read_to_end_gives_each_read_the_unread_tail() {
    let mut r = Chunks { data: (0..=255u8).cycle().take(1000).collect(), pos: 0, step: 600 };
    let mut buf = Vec::with_capacity(8);
    buf.extend_from_slice(&[7, 7, 7, 7, 7, 7, 7, 7]);
    r.read_to_end(&mut buf).unwrap();
    assert_eq!(buf.len(), 1008);
    assert_eq!(&buf[..8], &[7; 8]);
    assert_eq!(buf[8..], r.data[..]);
}

#[test]
fn write_all_writes_everything_or_fails() {
    let mut w = Sink { out: Vec::new(), step: 4 };
    w.write_all(b"hello world").unwrap();
    assert_eq!(w.out, b"hello world");
    let mut stuck = Sink { out: Vec::new(), step: 0 };
    assert_eq!(stuck.write_all(b"x").unwrap_err().repr(), Repr::WriteZero);
    assert!(stuck.write_all(b"").is_ok());
}

#[test]
fn error_repr_round_trip() {
    assert_eq!(Error::from_raw_os_error(13).repr(), Repr::Os(13));
}

#[test]
fn io_error_messages() {
    assert_eq!(Error::from_raw_os_error(2).message("No such file"), "No such file");
    let e: Error = std::str::from_utf8(&[0xff]).unwrap_err().into();
    assert_eq!(e.message("x"), "stream did not contain valid UTF-8");
}

#[test]
fn loop_steps() {
    assert_eq!(transfer_step(Ok(3), Repr::WriteZero), Ok(3));
    assert_eq!(transfer_step(Ok(0), Repr::WriteZero).unwrap_err().repr(), Repr::WriteZero);
    let e = Error::from_raw_os_error(4);
    assert_eq!(transfer_step(Err(e), Repr::UnexpectedEof), Err(e));
    assert_eq!(chunk_step(Ok(0)), Ok(None));
    assert_eq!(chunk_step(Ok(7)), Ok(Some(7)));
    assert_eq!(seek_done(Ok(9)), Ok(()));
    assert_eq!(stream_len_result(40, Ok(5)), Ok(40));
    assert_eq!(stream_len_result(40, Err(e)), Err(e));
}
