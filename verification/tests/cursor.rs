use kvs::cursor::{BufReaderWithPos, BufWriterWithPos};
use kvs::LogDir;

#[test]
fn writer_stands_at_the_end_of_its_log() {
    let writer = BufWriterWithPos::new(b"abc".to_vec());
    assert_eq!(writer.pos(), 3);
    assert_eq!(BufWriterWithPos::new(Vec::new()).pos(), 0);
}

#[test]
fn writer_appends_and_moves_on() {
    let mut writer = BufWriterWithPos::new(b"abc".to_vec());
    assert_eq!(writer.write(b"de"), 2);
    assert_eq!(writer.pos(), 5);
    assert_eq!(writer.write(b""), 0);
    writer.flush();
    assert_eq!(writer.pos(), 5);
    assert_eq!(writer.into_inner(), b"abcde");
}

#[test]
fn reader_starts_at_the_first_byte() {
    let mut reader = BufReaderWithPos::new(b"abcdef");
    assert_eq!(reader.pos(), 0);
    assert_eq!(reader.read(2), b"ab");
    assert_eq!(reader.pos(), 2);
    assert_eq!(reader.read(3), b"cde");
    assert_eq!(reader.pos(), 5);
}

#[test]
fn reader_reads_what_the_log_has() {
    let mut reader = BufReaderWithPos::new(b"abcdef");
    assert_eq!(reader.seek(4), 4);
    assert_eq!(reader.read(10), b"ef");
    assert_eq!(reader.pos(), 6);
    assert_eq!(reader.read(1), b"");
    assert_eq!(reader.pos(), 6);
    assert_eq!(reader.read(u64::MAX), b"");
}

#[test]
fn reader_reads_nothing_past_the_end() {
    let mut reader = BufReaderWithPos::new(b"abc");
    assert_eq!(reader.seek(7), 7);
    assert_eq!(reader.read(2), b"");
    assert_eq!(reader.pos(), 7);
    assert_eq!(reader.seek(1), 1);
    assert_eq!(reader.read(0), b"");
    assert_eq!(reader.read(u64::MAX), b"bc");
}

#[test]
fn directory_hands_out_readers_and_positions() {
    let mut dir = LogDir::new();
    dir.push_log(1);
    assert_eq!(dir.append_last(b"abc"), 0);
    assert_eq!(dir.append_last(b"de"), 3);
    let mut reader = dir.reader(0);
    reader.seek(2);
    assert_eq!(reader.read(2), b"cd");
}
