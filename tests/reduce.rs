use first_unique::entry::{Block, Entry, Record};
use first_unique::find_first_unique;
use first_unique::reduce::{
    find_first_entry_from_reduced_map, merge_entries, reduce_local_unique, ReduceError, Reducer,
};
use first_unique::shuffle::Group;

fn lines(text: &str) -> Vec<String> {
    text.lines().map(|l| l.to_string()).collect()
}

fn blocks(keys: &[(&str, u64)]) -> Vec<u8> {
    let mut out = Vec::new();
    for (key, index) in keys {
        out.extend(Block::create(key.to_string(), *index as usize).as_bytes().to_vec());
    }
    out
}

#[test]
fn scenario_first_of_five() {
    assert_eq!(find_first_unique(&lines("a\nb\nc\nb\nc\n")), Some("a".to_string()));
}

#[test]
fn scenario_all_repeated() {
    assert_eq!(find_first_unique(&lines("a\na\nb\nb\n")), None);
}

#[test]
fn scenario_trailing_commas() {
    let input = lines("apple,\nbanana,\napple,\ncherry,\nbanana,\n");
    assert_eq!(find_first_unique(&input), Some("cherry".to_string()));
}

#[test]
fn scenario_single_line() {
    assert_eq!(find_first_unique(&lines("x\n")), Some("x".to_string()));
}

#[test]
fn scenario_empty_input() {
    assert_eq!(find_first_unique(&Vec::new()), None);
}

#[test]
fn scenario_thousand_lines() {
    let others = ["alpha", "beta", "gamma"];
    let input: Vec<String> = (0..1000)
        .map(|i| {
            if i == 742 {
                "zzz".to_string()
            } else {
                others[i % 3].to_string()
            }
        })
        .collect();
    assert_eq!(find_first_unique(&input), Some("zzz".to_string()));
}

#[test]
fn empty_token_counts_as_key() {
    assert_eq!(find_first_unique(&lines("\nx\nx\n")), Some(String::new()));
    assert_eq!(find_first_unique(&lines(",\n\nx\n")), Some("x".to_string()));
}

#[test]
fn comma_variants_are_one_token() {
    assert_eq!(find_first_unique(&lines("a\na,\nb\n")), Some("b".to_string()));
    assert_eq!(find_first_unique(&lines("x,,\nx,\nx\n")), Some("x,".to_string()));
}

#[test]
fn merge_entries_folds_by_key_in_first_order() {
    let entries = vec![
        Entry::new("b".to_string(), 0),
        Entry::new("a".to_string(), 1),
        Entry::new("b".to_string(), 2),
    ];
    let merged = merge_entries(&entries);
    assert_eq!(
        merged,
        vec![
            Entry::from_record("b".to_string(), Record { count: 2, index: 0 }),
            Entry::from_record("a".to_string(), Record { count: 1, index: 1 }),
        ]
    );
}

#[test]
fn merge_entries_holds_count_at_maximum() {
    let entries = vec![
        Entry::from_record("k".to_string(), Record { count: u64::MAX - 1, index: 5 }),
        Entry::from_record("k".to_string(), Record { count: 3, index: 2 }),
    ];
    assert_eq!(
        merge_entries(&entries),
        vec![Entry::from_record("k".to_string(), Record { count: u64::MAX, index: 2 })]
    );
}

#[test]
fn first_entry_picks_single_with_smallest_index() {
    let items = vec![
        Entry::from_record("a".to_string(), Record { count: 2, index: 0 }),
        Entry::from_record("b".to_string(), Record { count: 1, index: 9 }),
        Entry::from_record("c".to_string(), Record { count: 1, index: 4 }),
        Entry::from_record("d".to_string(), Record { count: 1, index: u64::MAX }),
    ];
    assert_eq!(
        find_first_entry_from_reduced_map(&items),
        Some(Entry::from_record("c".to_string(), Record { count: 1, index: 4 }))
    );
    let only_max = vec![Entry::from_record("d".to_string(), Record { count: 1, index: u64::MAX })];
    assert_eq!(
        find_first_entry_from_reduced_map(&only_max),
        Some(Entry::from_record("d".to_string(), Record { count: 1, index: u64::MAX }))
    );
    assert_eq!(find_first_entry_from_reduced_map(&vec![]), None);
}

#[test]
fn local_unique_of_partition() {
    let part = blocks(&[("b", 1), ("c", 2), ("b", 3), ("d", 5)]);
    assert_eq!(reduce_local_unique(&part), Some(Some(Entry::new("c".to_string(), 2))));
    assert_eq!(reduce_local_unique(&blocks(&[("b", 1), ("b", 3)])), Some(None));
    assert_eq!(reduce_local_unique(&part[..part.len() - 3]), None);
}

#[test]
fn global_pick_is_order_independent() {
    let input = lines("p\nq\nr\np\ns\nq\n");
    let (_, parts) = Group::run_with_group_size(&input, 8, 2).unwrap();
    let reducer_group = Group { size: 8, threads: 2 };
    let parts_vec: Vec<Vec<u8>> = parts.iter().map(|p| p.to_vec()).collect();
    let forward = Reducer::for_first_unique(reducer_group, &parts_vec).unwrap();
    let mut reversed_parts = parts_vec.clone();
    reversed_parts.reverse();
    let backward = Reducer::for_first_unique(reducer_group, &reversed_parts).unwrap();
    assert_eq!(forward, Some("r".to_string()));
    assert_eq!(backward, forward);
}

#[test]
fn earliest_candidate_wins() {
    let group = Group { size: 1, threads: 1 };
    let parts = vec![blocks(&[("x", 3), ("y", 1)])];
    assert_eq!(Reducer::for_first_unique(group, &parts), Ok(Some("y".to_string())));
}

#[test]
fn reduce_reports_partition_count() {
    let group = Group { size: 2, threads: 1 };
    assert_eq!(
        Reducer::for_first_unique(group, &vec![Vec::new()]),
        Err(ReduceError::PartitionCount { expected: 2, found: 1 })
    );
}

#[test]
fn reduce_reports_first_malformed_partition() {
    let group = Group { size: 3, threads: 1 };
    let parts = vec![blocks(&[("a", 0)]), vec![0, 0, 1], vec![9]];
    assert_eq!(
        Reducer::for_first_unique(group, &parts),
        Err(ReduceError::Malformed { partition: 1 })
    );
}

#[test]
fn reduce_of_empty_partitions_is_none() {
    let group = Group { size: 2, threads: 1 };
    assert_eq!(Reducer::for_first_unique(group, &vec![Vec::new(), Vec::new()]), Ok(None));
}
