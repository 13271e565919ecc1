//! The index, the statistics, the selection of generations and the layout of
//! a compaction.

use kvs::error::ErrorCode;
use kvs::index::{Entry, Index};
use kvs::pointer::Pointer;
use kvs::rewrite::{contains_gen, plan, FILE_THRESHOLD};
use kvs::select::{select, COMPACTED_ONCE_BYTES};
use kvs::stats::{GenStale, Statistics};

fn key(text: &str) -> String {
    text.to_string()
}

#[test]
fn pointers_are_made_from_ranges() {
    assert_eq!(Pointer::new(3, 10, 5), Pointer { gen: 3, pos: 10, len: 5 });
    assert_eq!(Pointer::from_range(3, 10, 15), Pointer { gen: 3, pos: 10, len: 5 });
    assert_eq!(Pointer::from_range(1, 7, 7), Pointer { gen: 1, pos: 7, len: 0 });
}

#[test]
fn the_index_replaces_and_erases() {
    let mut index = Index::new();
    assert_eq!(index.len(), 0);
    assert_eq!(index.get(&key("a")), None);
    assert_eq!(index.insert(key("a"), Pointer::new(1, 0, 10)), None);
    assert_eq!(index.insert(key("b"), Pointer::new(1, 10, 12)), None);
    assert_eq!(index.insert(key("a"), Pointer::new(2, 0, 11)), Some(Pointer::new(1, 0, 10)));
    assert_eq!(index.len(), 2);
    assert!(index.contains_key(&key("a")));
    assert_eq!(index.get(&key("a")), Some(Pointer::new(2, 0, 11)));
    assert_eq!(index.get(&key("b")), Some(Pointer::new(1, 10, 12)));
    assert_eq!(index.remove(&key("a")), Some(Pointer::new(2, 0, 11)));
    assert_eq!(index.remove(&key("a")), None);
    assert_eq!(index.get(&key("a")), None);
    assert!(!index.contains_key(&key("a")));
    assert_eq!(index.len(), 1);
}

#[test]
fn the_index_is_walked_in_the_order_of_first_insertion() {
    let mut index = Index::new();
    for (i, name) in ["c", "a", "b", "a", "d"].iter().enumerate() {
        index.insert(key(name), Pointer::new(1, i as u64, 1));
    }
    index.remove(&key("a"));
    index.insert(key("a"), Pointer::new(1, 9, 1));
    let walked: Vec<(String, u64)> =
        index.pairs().into_iter().map(|e| (e.key, e.ptr.pos)).collect();
    assert_eq!(walked, vec![(key("c"), 0), (key("b"), 2), (key("d"), 4), (key("a"), 9)]);
}

#[test]
fn the_total_is_the_sum_over_the_generations() {
    let mut stats = Statistics::new();
    assert_eq!(stats.total(), 0);
    assert_eq!(stats.get(1), 0);
    stats.credit(1, 10).unwrap();
    stats.credit(2, 5).unwrap();
    stats.credit(1, 7).unwrap();
    assert_eq!(stats.get(1), 17);
    assert_eq!(stats.get(2), 5);
    assert_eq!(stats.get(3), 0);
    assert_eq!(stats.total(), 22);
    assert_eq!(stats.len(), 2);
    assert_eq!(stats.entry(0), GenStale { gen: 1, bytes: 17 });
    assert_eq!(stats.clear(1), 17);
    assert_eq!(stats.clear(1), 0);
    assert_eq!(stats.total(), 5);
    assert_eq!(stats.len(), 1);
}

#[test]
fn a_credit_that_passes_64_bits_is_refused() {
    let mut stats = Statistics::new();
    stats.credit(1, u64::MAX - 1).unwrap();
    assert_eq!(stats.credit(2, 2), Err(ErrorCode::Internal));
    assert_eq!(stats.total(), u64::MAX - 1);
    assert_eq!(stats.get(2), 0);
    assert_eq!(stats.credit(2, 1), Ok(()));
    assert_eq!(stats.total(), u64::MAX);
}

fn stats_of(records: &[(u64, u64)]) -> Statistics {
    let mut stats = Statistics::new();
    for (gen, bytes) in records {
        stats.credit(*gen, *bytes).unwrap();
    }
    stats
}

#[test]
fn the_stalest_generations_are_chosen_first() {
    let chosen = select(&stats_of(&[(1, 4000), (2, 9000), (3, 100), (4, 8000), (5, 8500)]));
    assert_eq!(chosen.gens, vec![2, 5]);
    assert_eq!(chosen.bytes, 17500);
    assert!(chosen.bytes >= COMPACTED_ONCE_BYTES);
}

#[test]
fn choosing_stops_as_soon_as_enough_is_scheduled() {
    let chosen = select(&stats_of(&[(7, 16384), (8, 16383)]));
    assert_eq!(chosen.gens, vec![7]);
    assert_eq!(chosen.bytes, 16384);
    let chosen = select(&stats_of(&[(7, 16383), (8, 1)]));
    assert_eq!(chosen.gens, vec![7, 8]);
    assert_eq!(chosen.bytes, 16384);
}

#[test]
fn all_generations_are_chosen_where_they_hold_too_little() {
    let chosen = select(&stats_of(&[(1, 10), (2, 30), (3, 20)]));
    assert_eq!(chosen.gens, vec![2, 3, 1]);
    assert_eq!(chosen.bytes, 60);
    let chosen = select(&Statistics::new());
    assert_eq!(chosen.gens, Vec::<u64>::new());
    assert_eq!(chosen.bytes, 0);
}

#[test]
fn equally_stale_generations_go_in_the_order_of_first_credit() {
    let chosen = select(&stats_of(&[(9, 5), (3, 5), (6, 5)]));
    assert_eq!(chosen.gens, vec![9, 3, 6]);
}

fn entry(name: &str, gen: u64, pos: u64, len: u64) -> Entry {
    Entry { key: key(name), ptr: Pointer::new(gen, pos, len) }
}

#[test]
fn live_records_of_chosen_generations_are_laid_out_one_after_the_other() {
    let pairs = vec![
        entry("a", 1, 0, 100),
        entry("b", 2, 0, 50),
        entry("c", 1, 300, 40),
        entry("d", 3, 10, 7),
    ];
    let laid = plan(&pairs, &vec![3, 1], 10).unwrap();
    let moves: Vec<(String, Pointer, Pointer)> =
        laid.moves.into_iter().map(|m| (m.key, m.from, m.to)).collect();
    assert_eq!(
        moves,
        vec![
            (key("a"), Pointer::new(1, 0, 100), Pointer::new(10, 0, 100)),
            (key("c"), Pointer::new(1, 300, 40), Pointer::new(10, 100, 40)),
            (key("d"), Pointer::new(3, 10, 7), Pointer::new(10, 140, 7)),
        ]
    );
    assert_eq!(laid.last_output, 10);
}

#[test]
fn a_full_output_is_closed_and_the_next_begun() {
    let pairs = vec![
        entry("a", 1, 0, 20000),
        entry("b", 1, 20000, 12768),
        entry("c", 1, 40000, 5),
        entry("d", 1, 50000, FILE_THRESHOLD),
    ];
    let laid = plan(&pairs, &vec![1], 4).unwrap();
    let to: Vec<Pointer> = laid.moves.iter().map(|m| m.to).collect();
    assert_eq!(
        to,
        vec![
            Pointer::new(4, 0, 20000),
            Pointer::new(4, 20000, 12768),
            Pointer::new(5, 0, 5),
            Pointer::new(5, 5, FILE_THRESHOLD),
        ]
    );
    assert_eq!(laid.last_output, 6);
}

#[test]
fn a_compaction_without_live_records_has_one_empty_output() {
    let laid = plan(&vec![entry("a", 2, 0, 10)], &vec![1], 3).unwrap();
    assert!(laid.moves.is_empty());
    assert_eq!(laid.last_output, 3);
}

#[test]
fn a_layout_that_passes_64_bits_is_refused() {
    let pairs = vec![entry("a", 1, 0, 10), entry("b", 1, 0, u64::MAX - 5)];
    assert_eq!(plan(&pairs, &vec![1], 3).err(), Some(ErrorCode::Internal));
    let pairs = vec![entry("a", 1, 0, FILE_THRESHOLD)];
    assert_eq!(plan(&pairs, &vec![1], u64::MAX).err(), Some(ErrorCode::Internal));
    let pairs = vec![entry("a", 1, 0, FILE_THRESHOLD - 1)];
    assert_eq!(plan(&pairs, &vec![1], u64::MAX).unwrap().last_output, u64::MAX);
}

#[test]
fn generations_are_found_in_a_list() {
    assert!(contains_gen(&vec![3, 1, 2], 1));
    assert!(!contains_gen(&vec![3, 1, 2], 4));
    assert!(!contains_gen(&Vec::new(), 0));
}
