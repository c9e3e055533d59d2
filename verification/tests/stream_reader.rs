use media_parser::stream_reader::{is_remote, ReadAhead, SeekTo, FETCH_BYTES};

#[test]
fn sources_with_an_http_prefix_are_remote() {
    assert!(is_remote("http://a/b"));
    assert!(is_remote("https://a/b"));
    assert!(!is_remote("/tmp/http://a"));
    assert!(!is_remote("HTTP://a"));
}

#[test]
fn a_reader_fetches_ahead_and_drains() {
    let mut reader = ReadAhead::new(1_000_000);
    assert_eq!(reader.size(), 1_000_000);
    assert!(reader.drain(10).is_empty());
    assert_eq!(reader.next_fetch(10), Some((0, FETCH_BYTES as u64 - 1)));
    assert!(reader.fill(vec![1, 2, 3]));
    assert_eq!(reader.drain(2), vec![1, 2]);
    assert_eq!(reader.drain(2), vec![3]);
    assert_eq!(reader.next_fetch(500_000), Some((3, 500_002)));
    assert!(!reader.fill(Vec::new()));
}

#[test]
fn a_reader_stops_at_the_end() {
    let mut reader = ReadAhead::new(5);
    assert_eq!(reader.next_fetch(1), Some((0, 4)));
    assert_eq!(reader.seek(SeekTo::End(0)), Some(5));
    assert_eq!(reader.next_fetch(1), None);
}

#[test]
fn seeking_forgets_what_was_read_ahead() {
    let mut reader = ReadAhead::new(10);
    assert!(reader.fill(vec![1, 2, 3]));
    assert_eq!(reader.seek(SeekTo::Start(4)), Some(4));
    assert!(reader.drain(3).is_empty());
    assert_eq!(reader.seek(SeekTo::Current(-9)), Some(0));
    assert_eq!(reader.seek(SeekTo::Current(7)), Some(7));
    assert_eq!(reader.seek(SeekTo::End(-3)), Some(7));
    assert_eq!(reader.seek(SeekTo::End(i64::MIN)), Some(0));
    assert_eq!(reader.seek(SeekTo::Start(u64::MAX)), Some(u64::MAX));
    assert_eq!(reader.seek(SeekTo::Current(1)), None);
}
