use linereader::LineReader;
use std::io::{Error, ErrorKind, Read};

fn lines_of<R: Read>(reader: &mut LineReader<R>) -> Vec<Vec<u8>> {
    let mut out = Vec::new();
    while let Some(line) = reader.next_line() {
        out.push(line.unwrap().to_vec());
    }
    out
}

fn batches_of<R: Read>(reader: &mut LineReader<R>) -> Vec<Vec<u8>> {
    let mut out = Vec::new();
    while let Some(batch) = reader.next_batch() {
        out.push(batch.unwrap().to_vec());
    }
    out
}

/// Hands out its bytes a few at a time, failing or being interrupted on the
/// calls listed.
struct Scripted {
    data: Vec<u8>,
    at: usize,
    chunk: usize,
    calls: usize,
    interrupt_on: Vec<usize>,
    fail_on: Vec<usize>,
}

impl Scripted {
    fn new(data: &[u8], chunk: usize) -> Self {
        Scripted {
            data: data.to_vec(),
            at: 0,
            chunk,
            calls: 0,
            interrupt_on: Vec::new(),
            fail_on: Vec::new(),
        }
    }
}

impl Read for Scripted {
    fn read(&mut self, buf: &mut [u8]) -> std::io::Result<usize> {
        self.calls += 1;
        if self.interrupt_on.contains(&self.calls) {
            return Err(Error::new(ErrorKind::Interrupted, "interrupted"));
        }
        if self.fail_on.contains(&self.calls) {
            return Err(Error::new(ErrorKind::Other, "broken"));
        }
        let n = self.chunk.min(buf.len()).min(self.data.len() - self.at);
        buf[..n].copy_from_slice(&self.data[self.at..self.at + n]);
        self.at += n;
        Ok(n)
    }
}

#[test]
fn three_short_records() {
    let src: &[u8] = b"0a0\n1bb1\n2ccc2\n";
    let mut reader = LineReader::with_capacity(8, src);
    assert_eq!(b"0a0\n", reader.next_line().unwrap().unwrap());
    assert_eq!(b"1bb1\n", reader.next_line().unwrap().unwrap());
    assert_eq!(b"2ccc2\n", reader.next_line().unwrap().unwrap());
    assert!(reader.next_line().is_none());
}

#[test]
fn record_longer_than_buffer_is_split() {
    let src: &[u8] = b"5ffffffff5\n";
    let mut reader = LineReader::with_capacity(8, src);
    assert_eq!(b"5fffffff", reader.next_line().unwrap().unwrap());
    assert_eq!(b"f5\n", reader.next_line().unwrap().unwrap());
    assert!(reader.next_line().is_none());
}

#[test]
fn split_into_ceiling_many_pieces() {
    let src: &[u8] = b"abcdefghijklmnopqrstuvwxy\nz\n";
    let mut reader = LineReader::with_capacity(8, src);
    let lines = lines_of(&mut reader);
    assert_eq!(
        lines,
        vec![
            b"abcdefgh".to_vec(),
            b"ijklmnop".to_vec(),
            b"qrstuvwx".to_vec(),
            b"y\n".to_vec(),
            b"z\n".to_vec(),
        ]
    );
}

#[test]
fn record_exactly_the_buffer_size() {
    let src: &[u8] = b"abcdefg\nhi";
    let mut reader = LineReader::with_capacity(8, src);
    assert_eq!(b"abcdefg\n", reader.next_line().unwrap().unwrap());
    assert_eq!(b"hi", reader.next_line().unwrap().unwrap());
    assert!(reader.next_line().is_none());
}

#[test]
fn final_record_without_delimiter() {
    let src: &[u8] = b"6xxx6";
    let mut reader = LineReader::with_capacity(8, src);
    assert_eq!(b"6xxx6", reader.next_line().unwrap().unwrap());
    assert!(reader.next_line().is_none());
}

#[test]
fn empty_source_is_exhausted_at_once() {
    let src: &[u8] = b"";
    let mut reader = LineReader::new(src);
    assert!(reader.next_line().is_none());
    let mut reader = LineReader::new(src);
    assert!(reader.next_batch().is_none());
}

#[test]
fn exhaustion_is_final() {
    let mut source = Scripted::new(b"a\nb", 2);
    source.fail_on = vec![4, 5, 6];
    let mut reader = LineReader::with_capacity(4, source);
    assert_eq!(b"a\n", reader.next_line().unwrap().unwrap());
    assert_eq!(b"b", reader.next_line().unwrap().unwrap());
    assert!(reader.next_line().is_none());
    // The source is not asked again: its failures never show.
    assert!(reader.next_line().is_none());
    assert!(reader.next_batch().is_none());
    assert_eq!(reader.get_ref().calls, 3);
}

#[test]
fn round_trip_over_many_capacities() {
    let data: Vec<u8> = (0..500u32).map(|i| if i % 7 == 3 || i % 31 == 0 { b'\n' } else { b'a' + (i % 26) as u8 }).collect();
    for cap in 1..40 {
        for chunk in [1usize, 3, 64] {
            let mut reader = LineReader::with_capacity(cap, Scripted::new(&data, chunk));
            let lines = lines_of(&mut reader);
            assert_eq!(lines.concat(), data);
            for (k, line) in lines.iter().enumerate() {
                assert!(!line.is_empty() && line.len() <= cap);
                let inner = &line[..line.len() - 1];
                assert!(!inner.contains(&b'\n'));
                let last = k + 1 == lines.len();
                assert!(line.ends_with(b"\n") || line.len() == cap || last);
            }
        }
    }
}

#[test]
fn batches_join_to_the_same_bytes_as_records() {
    let data: &[u8] = b"0a0\n1bb1\n2ccc2\n3dddd3\n4eeeee4\n5ffffffff5\n6ggggg6\n7hhhhhh7";
    for cap in 1..30 {
        let mut by_record = LineReader::with_capacity(cap, data);
        let mut by_batch = LineReader::with_capacity(cap, data);
        let records = lines_of(&mut by_record).concat();
        let batches = batches_of(&mut by_batch);
        assert_eq!(batches.concat(), records);
        assert_eq!(records, data.to_vec());
        for batch in &batches {
            assert!(!batch.is_empty() && batch.len() <= cap);
        }
    }
}

#[test]
fn custom_delimiter() {
    let src: &[u8] = b"a\tbb\tc";
    let mut reader = LineReader::with_delimiter(b'\t', src);
    assert_eq!(b"a\t", reader.next_line().unwrap().unwrap());
    assert_eq!(b"bb\t", reader.next_line().unwrap().unwrap());
    assert_eq!(b"c", reader.next_line().unwrap().unwrap());
    assert!(reader.next_line().is_none());
}

#[test]
fn newline_is_not_special_with_another_delimiter() {
    let src: &[u8] = b"x\ny;z";
    let mut reader = LineReader::with_delimiter_and_capacity(b';', 16, src);
    assert_eq!(b"x\ny;", reader.next_line().unwrap().unwrap());
    assert_eq!(b"z", reader.next_line().unwrap().unwrap());
    assert!(reader.next_line().is_none());
}

#[test]
fn batch_stops_at_last_delimiter() {
    let src: &[u8] = b"a\nb\ncc";
    let mut reader = LineReader::with_capacity(16, src);
    assert_eq!(b"a\nb\n", reader.next_batch().unwrap().unwrap());
    assert_eq!(b"cc", reader.next_batch().unwrap().unwrap());
    assert!(reader.next_batch().is_none());
}

#[test]
fn interrupted_reads_are_retried() {
    let mut source = Scripted::new(b"ab\ncd\n", 2);
    source.interrupt_on = vec![1, 2, 4];
    let mut reader = LineReader::with_capacity(8, source);
    assert_eq!(lines_of(&mut reader), vec![b"ab\n".to_vec(), b"cd\n".to_vec()]);
}

#[test]
fn read_error_is_returned_and_nothing_is_lost() {
    let mut source = Scripted::new(b"abc\ndef\n", 2);
    source.fail_on = vec![2];
    let mut reader = LineReader::with_capacity(16, source);
    let err = reader.next_line().unwrap().unwrap_err();
    assert_eq!(err.kind(), ErrorKind::Other);
    // The bytes read before the failure are kept; pulling again goes on.
    assert_eq!(b"abc\n", reader.next_line().unwrap().unwrap());
    assert_eq!(b"def\n", reader.next_line().unwrap().unwrap());
    assert!(reader.next_line().is_none());
}

#[test]
fn batch_read_error_is_returned() {
    let mut source = Scripted::new(b"abc\n", 8);
    source.fail_on = vec![1];
    let mut reader = LineReader::with_capacity(16, source);
    assert_eq!(reader.next_batch().unwrap().unwrap_err().kind(), ErrorKind::Other);
    assert_eq!(b"abc\n", reader.next_batch().unwrap().unwrap());
    assert!(reader.next_batch().is_none());
}

#[test]
fn for_each_returns_the_callbacks_error() {
    let src: &[u8] = b"a\nb\nc\n";
    let mut reader = LineReader::new(src);
    let mut seen = Vec::new();
    let r = reader.for_each(|l| {
        seen.push(l.to_vec());
        if l == b"b\n" {
            Err(Error::new(ErrorKind::InvalidData, "stop"))
        } else {
            Ok(true)
        }
    });
    assert_eq!(r.unwrap_err().kind(), ErrorKind::InvalidData);
    assert_eq!(seen, vec![b"a\n".to_vec(), b"b\n".to_vec()]);
    assert_eq!(b"c\n", reader.next_line().unwrap().unwrap());
}

#[test]
fn for_each_returns_the_sources_error() {
    let mut source = Scripted::new(b"a\nb", 2);
    source.fail_on = vec![2];
    let mut reader = LineReader::with_capacity(8, source);
    let mut seen = Vec::new();
    let r = reader.for_each(|l| {
        seen.push(l.to_vec());
        Ok(true)
    });
    assert_eq!(r.unwrap_err().kind(), ErrorKind::Other);
    assert_eq!(seen, vec![b"a\n".to_vec()]);
}

#[test]
fn reset_forgets_buffered_bytes() {
    let src: &[u8] = b"one\ntwo\nthree\n";
    let mut reader = LineReader::with_capacity(64, src);
    assert_eq!(b"one\n", reader.next_line().unwrap().unwrap());
    reader.reset();
    // Everything was read into the buffer at once, so nothing is left.
    assert!(reader.next_line().is_none());
}

#[test]
fn reset_resumes_from_the_source() {
    let src: &[u8] = b"one\ntwo\nthree\n";
    let mut reader = LineReader::with_capacity(64, src);
    assert!(reader.next_line().is_some());
    reader.reset();
    *reader.get_mut() = b"four\n";
    assert_eq!(b"four\n", reader.next_line().unwrap().unwrap());
    assert!(reader.next_line().is_none());
}

#[test]
fn accessors_give_the_source() {
    let src: &[u8] = b"ab\ncd\n";
    let mut reader = LineReader::with_capacity(3, src);
    assert_eq!(reader.get_ref().len(), 6);
    assert_eq!(b"ab\n", reader.next_line().unwrap().unwrap());
    // Only what fit in the buffer was taken from the source.
    assert_eq!(*reader.get_ref(), b"cd\n");
    let inner = reader.into_inner();
    assert_eq!(inner, b"cd\n");
}
