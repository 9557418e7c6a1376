use first_unique::entry::{Block, Entry};
use first_unique::shuffle::shuffler::Shuffler;
use first_unique::shuffle::{make_index, token, Group, ShuffleError};

fn lines(text: &str) -> Vec<String> {
    text.lines().map(|l| l.to_string()).collect()
}

#[test]
fn map_reduce_test_make_index() {
    let idx1 = make_index("Jon", 10);
    let idx2 = make_index("Jon", 10);
    assert_eq!(idx1, idx2);
}

#[test]
fn shuffle_test_make_index() {
    let group = Group {
        size: 4,
        threads: 1,
    };

    let idx1 = group.make_index("Jon");
    let idx2 = group.make_index("Jon");

    assert_eq!(idx1, idx2);
}

#[test]
fn make_index_is_fnv1a_modulo() {
    assert_eq!(make_index("a", u32::MAX), (0xaf63_dc4c_8601_ec8cu64 % 0xffff_ffff) as u32);
    assert_eq!(make_index("", 32), (0xcbf2_9ce4_8422_2325u64 % 32) as u32);
    assert_eq!(make_index("apple", 32), 31);
    assert_eq!(make_index("Jon", 10), 0);
}

#[test]
fn make_index_stays_in_range() {
    for key in ["", "a", "b", "Jon", "apple", "banana", "cherry"] {
        assert!(make_index(key, 7) < 7);
        assert_eq!(Group { size: 7, threads: 7 }.make_index(key), make_index(key, 7));
    }
}

#[test]
fn token_strips_one_trailing_comma() {
    assert_eq!(token("apple,"), "apple");
    assert_eq!(token("x,,"), "x,");
    assert_eq!(token("plain"), "plain");
    assert_eq!(token(","), "");
    assert_eq!(token(""), "");
    assert_eq!(token(" a ,"), " a ");
}

#[test]
fn owner_and_slot_split_partitions() {
    let group = Group {
        size: 32,
        threads: 8,
    };
    assert_eq!(group.owner(13), 5);
    assert_eq!(group.slot(13), 1);
    assert_eq!(group.owner(31), 7);
    assert_eq!(group.slot(31), 3);
    assert_eq!(group.size(), 32);
    assert_eq!(group.threads(), 8);
}

#[test]
fn run_uses_default_shape() {
    let (group, parts) = Group::run(&lines("a\nb\n"));
    assert_eq!(group.size(), 32);
    assert_eq!(group.threads(), 8);
    assert_eq!(parts.len(), 32);
}

#[test]
fn run_with_group_size_rejects_bad_shapes() {
    let input = lines("a\n");
    assert_eq!(
        Group::run_with_group_size(&input, 0, 1).err(),
        Some(ShuffleError::InvalidGroup { size: 0, threads: 1 })
    );
    assert_eq!(
        Group::run_with_group_size(&input, 4, 0).err(),
        Some(ShuffleError::InvalidGroup { size: 4, threads: 0 })
    );
    assert_eq!(
        Group::run_with_group_size(&input, 32, 5).err(),
        Some(ShuffleError::InvalidGroup { size: 32, threads: 5 })
    );
    assert!(Group::run_with_group_size(&input, 6, 3).is_ok());
}

#[test]
fn shuffle_sends_each_key_to_one_partition() {
    let input = lines("apple,\nbanana,\napple,\ncherry,\nbanana,\n");
    let (group, parts) = Group::run_with_group_size(&input, 4, 2).unwrap();
    let mut seen = Vec::new();
    for (q, part) in parts.iter().enumerate() {
        for entry in Block::parse_entries(part).unwrap() {
            assert_eq!(group.make_index(&entry.key) as usize, q);
            seen.push((entry.record.index, entry.key));
        }
    }
    seen.sort();
    let expect: Vec<(u64, String)> = ["apple", "banana", "apple", "cherry", "banana"]
        .iter()
        .enumerate()
        .map(|(i, k)| (i as u64, k.to_string()))
        .collect();
    assert_eq!(seen, expect);
}

#[test]
fn partition_holds_blocks_in_line_order() {
    let input = lines("x\ny\nx\n");
    let (_, parts) = Group::run_with_group_size(&input, 1, 1).unwrap();
    let mut expect = Block::create("x".to_string(), 0).as_bytes().to_vec();
    expect.extend(Block::create("y".to_string(), 1).as_bytes().to_vec());
    expect.extend(Block::create("x".to_string(), 2).as_bytes().to_vec());
    assert_eq!(parts[0].to_vec(), expect);
}

#[test]
fn run_partition_numbers_from_first() {
    let shuffler = Shuffler::new(Group { size: 1, threads: 1 });
    let parts = shuffler.run_partition(&lines("a,\nb\n"), 40);
    assert_eq!(
        Block::parse_entries(&parts[0]),
        Some(vec![Entry::new("a".to_string(), 40), Entry::new("b".to_string(), 41)])
    );
}
