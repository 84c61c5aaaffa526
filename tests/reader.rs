use linereader::LineReader;
use rand::{thread_rng, Rng};
use std::io::BufRead;
use std::io::{Cursor, Read};

#[test]
fn test_next_line() {
    let buf: &[u8] = b"0a0\n1bb1\n2ccc2\n3dddd3\n4eeeee4\n5ffffffff5\n6ggggg6\n7hhhhhh7";
    let mut reader = LineReader::with_capacity(8, buf);

    assert_eq!(b"0a0\n", reader.next_line().unwrap().unwrap());
    assert_eq!(b"1bb1\n", reader.next_line().unwrap().unwrap());
    assert_eq!(b"2ccc2\n", reader.next_line().unwrap().unwrap());
    assert_eq!(b"3dddd3\n", reader.next_line().unwrap().unwrap());
    assert_eq!(b"4eeeee4\n", reader.next_line().unwrap().unwrap());
    assert_eq!(b"5fffffff", reader.next_line().unwrap().unwrap());
    assert_eq!(b"f5\n", reader.next_line().unwrap().unwrap());
    assert_eq!(b"6ggggg6\n", reader.next_line().unwrap().unwrap());
    assert_eq!(b"7hhhhhh7", reader.next_line().unwrap().unwrap());
    assert!(reader.next_line().is_none());
}

#[test]
fn test_next_batch() {
    let buf: &[u8] = b"0a0\n1bb1\n2ccc2\n3dddd3\n4eeeee4\n5ffffffff5\n6ggggg6\n7hhhhhh7";
    let mut reader = LineReader::with_capacity(19, buf);

    assert_eq!(b"0a0\n1bb1\n2ccc2\n", reader.next_batch().unwrap().unwrap());
    assert_eq!(b"3dddd3\n4eeeee4\n", reader.next_batch().unwrap().unwrap());
    assert_eq!(
        b"5ffffffff5\n6ggggg6\n",
        reader.next_batch().unwrap().unwrap()
    );
    assert_eq!(b"7hhhhhh7", reader.next_batch().unwrap().unwrap());
}

#[test]
fn test_for_each() {
    let buf: &[u8] = b"f\nba\nbaz\n";
    let mut reader = LineReader::new(buf);

    let mut len = 2;
    reader
        .for_each(|l| {
            assert_eq!(len, l.len());
            len += 1;
            Ok(true)
        })
        .unwrap();

    let buf: &[u8] = b"f\nba\nbaz\n";
    let mut reader = LineReader::new(buf);

    reader
        .for_each(|l| {
            assert_eq!(l.len(), 2);
            Ok(false)
        })
        .unwrap();
}

#[test]
fn test_next_line_randomly() {
    let mut rng = thread_rng();

    for _ in 1..128 {
        let mut buf = [0u8; 65535];
        rng.fill(&mut buf[..]);
        let delimiter = rng.gen::<u8>();
        let max_line = rng.gen::<u8>().saturating_add(8) as usize;

        let mut reader =
            LineReader::with_delimiter_and_capacity(delimiter, max_line, Cursor::new(&buf[..]));
        let mut cursor = Cursor::new(&buf[..]);
        let mut expected = vec![];

        while cursor
            .by_ref()
            .take(max_line as u64)
            .read_until(delimiter, &mut expected)
            .unwrap()
            > 0
        {
            assert_eq!(expected, reader.next_line().unwrap().unwrap());
            expected.clear();
        }

        assert!(reader.next_line().is_none());
    }
}
