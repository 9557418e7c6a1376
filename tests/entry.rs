use first_unique::entry::{Block, Entry, Record};

fn be(n: u64) -> Vec<u8> {
    n.to_be_bytes().to_vec()
}

#[test]
fn test_record_merge() {
    let record0 = Record::new(0);
    let record1 = Record::new(1);

    assert_eq!(record0.merge(&record1), Record { count: 2, index: 0 });
}

#[test]
fn test_block_serialize() {
    let block = Block::create("Hello".to_string(), 0);

    let bytes: &[u8] = &block.as_bytes();

    // Note: the encoding use Big Endian.
    let mut expect: Vec<u8> = vec![0, 0, 0, 0, 0, 0, 0, 5];

    expect.extend(b"Hello");
    expect.extend(&[0, 0, 0, 0, 0, 0, 0, 1]);
    expect.extend(&[0, 0, 0, 0, 0, 0, 0, 0]);

    assert_eq!(bytes, &expect[..]);
}

#[test]
fn test_block_deserialise() {
    let block0 = Block::create("Hello".to_string(), 0);
    let block1 = Block::create("World".to_string(), 1);

    let mut bytes = block0.as_bytes();
    bytes.extend(block1.as_bytes());

    let bytes_slice: &[u8] = &bytes;

    let expect = vec![
        Entry::new("Hello".to_string(), 0),
        Entry::new("World".to_string(), 1),
    ];

    let entries = Block::parse_entries(bytes_slice);

    assert_eq!(entries, Some(expect));
}

#[test]
fn record_new_counts_once() {
    assert_eq!(Record::new(7), Record { count: 1, index: 7 });
}

#[test]
fn merge_is_commutative_and_keeps_earlier_line() {
    let a = Record { count: 3, index: 9 };
    let b = Record { count: 2, index: 4 };
    assert_eq!(a.merge(&b), Record { count: 5, index: 4 });
    assert_eq!(a.merge(&b), b.merge(&a));
}

#[test]
fn merge_is_associative() {
    let a = Record { count: 1, index: 5 };
    let b = Record { count: 4, index: 2 };
    let c = Record { count: 2, index: 8 };
    assert_eq!(a.merge(&b).merge(&c), a.merge(&b.merge(&c)));
    assert_eq!(a.merge(&b).merge(&c), Record { count: 7, index: 2 });
}

#[test]
fn merge_with_new_occurrence_keeps_minimum() {
    let r = Record { count: 2, index: 10 };
    assert_eq!(r.merge(&Record::new(3)), Record { count: 3, index: 3 });
    assert_eq!(r.merge(&Record::new(30)), Record { count: 3, index: 10 });
}

#[test]
fn entry_constructors() {
    let e = Entry::new("k".to_string(), 12);
    assert_eq!(e.key, "k");
    assert_eq!(e.record, Record { count: 1, index: 12 });
    let f = Entry::from_record("k".to_string(), Record { count: 4, index: 1 });
    assert_eq!(f.record, Record { count: 4, index: 1 });
}

#[test]
fn block_of_multibyte_key_counts_bytes() {
    let block = Block::create("é".to_string(), 258);
    let bytes: &[u8] = &block.as_bytes();
    let mut expect = be(2);
    expect.extend("é".as_bytes());
    expect.extend(be(1));
    expect.extend(be(258));
    assert_eq!(bytes, &expect[..]);
}

#[test]
fn block_of_empty_key() {
    let block = Block::create(String::new(), 3);
    let bytes: &[u8] = &block.as_bytes();
    let mut expect = be(0);
    expect.extend(be(1));
    expect.extend(be(3));
    assert_eq!(bytes, &expect[..]);
}

#[test]
fn round_trip_keeps_counts_and_indices() {
    let mut bytes = Vec::new();
    for (key, count, index) in [("apple", 3u64, 17u64), ("", 1, 0), ("zz", 9, u64::MAX)] {
        bytes.extend(be(key.len() as u64));
        bytes.extend(key.as_bytes());
        bytes.extend(be(count));
        bytes.extend(be(index));
    }
    let entries = Block::parse_entries(&bytes).unwrap();
    assert_eq!(
        entries,
        vec![
            Entry::from_record("apple".to_string(), Record { count: 3, index: 17 }),
            Entry::from_record(String::new(), Record { count: 1, index: 0 }),
            Entry::from_record("zz".to_string(), Record { count: 9, index: u64::MAX }),
        ]
    );
}

#[test]
fn parse_empty_buffer_gives_no_entries() {
    assert_eq!(Block::parse_entries(&[]), Some(vec![]));
}

#[test]
fn parse_rejects_truncated_block() {
    let block = Block::create("Hello".to_string(), 0);
    let bytes: Vec<u8> = block.as_bytes().to_vec();
    assert_eq!(Block::parse_entries(&bytes[..bytes.len() - 1]), None);
    assert_eq!(Block::parse_entries(&bytes[..5]), None);
}

#[test]
fn parse_rejects_length_past_end() {
    let mut bytes = be(100);
    bytes.extend(b"abc");
    bytes.extend(be(1));
    bytes.extend(be(0));
    assert_eq!(Block::parse_entries(&bytes), None);
}

#[test]
fn parse_rejects_invalid_utf8_key() {
    let mut bytes = be(2);
    bytes.extend([0xff, 0xfe]);
    bytes.extend(be(1));
    bytes.extend(be(0));
    assert_eq!(Block::parse_entries(&bytes), None);
}

#[test]
fn parse_rejects_zero_count() {
    let mut bytes = be(1);
    bytes.extend(b"a");
    bytes.extend(be(0));
    bytes.extend(be(4));
    assert_eq!(Block::parse_entries(&bytes), None);
}
