//! The store's bookkeeping, without files.

use kvs::error::ErrorCode;
use kvs::pointer::Pointer;
use kvs::replay::LogFile;
use kvs::store::{KvStore, COMPACTABLE_THRESHOLD};

fn key(text: &str) -> String {
    text.to_string()
}

#[test]
fn a_set_points_the_key_at_the_record_just_written() {
    let mut store = KvStore::new(1);
    let upkeep = store.set(key("a"), 30).unwrap();
    assert!(upkeep.compaction.is_none());
    assert_eq!(upkeep.writer_gen, 1);
    assert_eq!(store.get(&key("a")), Some(Pointer::new(1, 0, 30)));
    store.set(key("b"), 12).unwrap();
    assert_eq!(store.get(&key("b")), Some(Pointer::new(1, 30, 12)));
    assert_eq!(store.writer_pos(), 42);
    assert_eq!(store.uncompacted(), 0);
    assert_eq!(store.len(), 2);
}

#[test]
fn an_overwritten_record_is_stale_in_its_generation() {
    let mut store = KvStore::new(1);
    store.set(key("a"), 30).unwrap();
    store.scroll(1).unwrap();
    store.set(key("a"), 31).unwrap();
    assert_eq!(store.get(&key("a")), Some(Pointer::new(2, 0, 31)));
    assert_eq!(store.uncompacted_in(1), 30);
    assert_eq!(store.uncompacted_in(2), 0);
    assert_eq!(store.uncompacted(), 30);
}

#[test]
fn a_removed_record_and_its_tombstone_are_stale() {
    let mut store = KvStore::new(1);
    store.set(key("a"), 30).unwrap();
    store.scroll(2).unwrap();
    store.remove(key("a"), 22).unwrap();
    assert_eq!(store.get(&key("a")), None);
    assert_eq!(store.uncompacted_in(1), 30);
    assert_eq!(store.uncompacted_in(3), 22);
    assert_eq!(store.uncompacted(), 52);
    assert_eq!(store.writer_pos(), 22);
    assert_eq!(store.len(), 0);
}

#[test]
fn removing_an_absent_key_changes_nothing() {
    let mut store = KvStore::new(1);
    store.set(key("a"), 30).unwrap();
    assert_eq!(store.remove(key("b"), 22).err(), Some(ErrorCode::KeyNotFound));
    assert_eq!(store.writer_pos(), 30);
    assert_eq!(store.uncompacted(), 0);
    assert_eq!(store.get(&key("a")), Some(Pointer::new(1, 0, 30)));
}

#[test]
fn a_record_that_passes_64_bits_is_refused() {
    let mut store = KvStore::new(1);
    store.set(key("a"), 30).unwrap();
    assert_eq!(store.set(key("b"), u64::MAX - 29).err(), Some(ErrorCode::Internal));
    assert_eq!(store.get(&key("b")), None);
    assert_eq!(store.writer_pos(), 30);
    assert_eq!(store.remove(key("a"), u64::MAX - 29).err(), Some(ErrorCode::Internal));
    assert_eq!(store.get(&key("a")), Some(Pointer::new(1, 0, 30)));
}

#[test]
fn the_writer_cannot_pass_the_last_generation() {
    let mut store = KvStore::new(u64::MAX - 1);
    assert_eq!(store.scroll(2).err(), Some(ErrorCode::Internal));
    assert_eq!(store.writer_gen(), u64::MAX - 1);
    store.scroll(1).unwrap();
    assert_eq!(store.writer_gen(), u64::MAX);
    assert_eq!(store.set(key("a"), 40000).err(), Some(ErrorCode::Internal));
    assert_eq!(store.get(&key("a")), Some(Pointer::new(u64::MAX, 0, 40000)));
    assert_eq!(store.try_trigger_scroll().err(), Some(ErrorCode::Internal));
}

#[test]
fn the_log_rolls_once_it_has_reached_the_threshold() {
    let mut store = KvStore::new(1);
    let upkeep = store.set(key("a"), 32767).unwrap();
    assert_eq!(upkeep.writer_gen, 1);
    assert_eq!(store.try_trigger_scroll(), Ok(false));
    let upkeep = store.set(key("b"), 1).unwrap();
    assert_eq!(upkeep.writer_gen, 2);
    assert!(upkeep.compaction.is_none());
    assert_eq!(store.writer_pos(), 0);
    assert_eq!(store.get(&key("b")), Some(Pointer::new(1, 32767, 1)));
}

#[test]
fn no_compaction_below_the_threshold() {
    let mut store = KvStore::new(1);
    store.set(key("a"), COMPACTABLE_THRESHOLD - 1).unwrap();
    let upkeep = store.set(key("a"), 10).unwrap();
    assert!(upkeep.compaction.is_none());
    assert_eq!(store.uncompacted(), COMPACTABLE_THRESHOLD - 1);
    assert!(store.try_trigger_compact().unwrap().is_none());
}

#[test]
fn a_compaction_retires_the_stalest_generations_and_moves_their_live_records() {
    let mut store = KvStore::new(1);
    store.set(key("a"), 20000).unwrap();
    store.set(key("keep"), 100).unwrap();
    store.set(key("b"), 13000).unwrap();
    assert_eq!(store.writer_gen(), 2);
    store.set(key("a"), 20000).unwrap();
    store.set(key("other"), 50).unwrap();
    assert_eq!(store.uncompacted(), 20000);
    let upkeep = store.set(key("b"), 13000).unwrap();
    // 33000 stale bytes, all in generation 1, whose only live record is "keep"
    let c = upkeep.compaction.unwrap();
    assert_eq!(c.retired, vec![1]);
    assert_eq!(c.reclaimed, 33000);
    assert_eq!(c.first_output, 3);
    assert_eq!(c.plan.last_output, 3);
    assert_eq!(c.plan.moves.len(), 1);
    assert_eq!(c.plan.moves[0].key, "keep");
    assert_eq!(c.plan.moves[0].from, Pointer::new(1, 20000, 100));
    assert_eq!(c.plan.moves[0].to, Pointer::new(3, 0, 100));
    assert_eq!(upkeep.writer_gen, 4);
    assert_eq!(store.writer_gen(), 4);
    assert_eq!(store.writer_pos(), 0);
    assert_eq!(store.uncompacted(), 0);
    assert_eq!(store.uncompacted_in(1), 0);
    assert_eq!(store.get(&key("keep")), Some(Pointer::new(3, 0, 100)));
    assert_eq!(store.get(&key("a")), Some(Pointer::new(2, 0, 20000)));
    assert_eq!(store.get(&key("other")), Some(Pointer::new(2, 20000, 50)));
    assert_eq!(store.get(&key("b")), Some(Pointer::new(2, 20050, 13000)));
}

#[test]
fn the_writer_moves_past_every_output_of_a_compaction() {
    let mut store = KvStore::new(1);
    for i in 0..4 {
        store.set(format!("big{}", i), 20000).unwrap();
    }
    // generation 1 holds big0 and big1, generation 2 holds big2 and big3
    assert_eq!(store.writer_gen(), 3);
    store.set(key("x"), 33000).unwrap();
    assert_eq!(store.writer_gen(), 4);
    store.scroll(1).unwrap();
    let upkeep = store.set(key("x"), 10).unwrap();
    // generation 3 is retired; its only record was the stale one
    let c = upkeep.compaction.unwrap();
    assert_eq!(c.retired, vec![3]);
    assert!(c.plan.moves.is_empty());
    assert_eq!((c.first_output, c.plan.last_output), (6, 6));
    assert_eq!(upkeep.writer_gen, 7);
}

#[test]
fn a_compaction_may_write_more_generations_than_it_retires() {
    let mut store = KvStore::new(1);
    store.set(key("a"), 30000).unwrap();
    store.set(key("b"), 30000).unwrap();
    assert_eq!(store.writer_gen(), 2);
    store.apply(true, key("c"), Pointer::new(1, 60000, 30000)).unwrap();
    store.apply(true, key("d"), Pointer::new(1, 90000, 40000)).unwrap();
    store.apply(true, key("d"), Pointer::new(1, 130000, 5)).unwrap();
    assert_eq!(store.uncompacted_in(1), 40000);
    let c = store.try_trigger_compact().unwrap().unwrap();
    assert_eq!(c.retired, vec![1]);
    let to: Vec<Pointer> = c.plan.moves.iter().map(|m| m.to).collect();
    assert_eq!(
        to,
        vec![
            Pointer::new(3, 0, 30000),
            Pointer::new(3, 30000, 30000),
            Pointer::new(4, 0, 30000),
            Pointer::new(4, 30000, 5),
        ]
    );
    assert_eq!(c.plan.last_output, 4);
    assert_eq!(store.writer_gen(), 5);
}

#[test]
fn replay_rebuilds_index_and_statistics() {
    let log = |gen: u64, text: &str| LogFile { gen, bytes: text.as_bytes().to_vec() };
    let first = "{\"Set\":{\"key\":\"a\",\"value\":\"1\"}}{\"Set\":{\"key\":\"b\",\"value\":\"2\"}}";
    let second = "{\"Remove\":{\"key\":\"a\"}}{\"Set\":{\"key\":\"b\",\"value\":\"3\"}}";
    let store = KvStore::open(&vec![log(2, first), log(5, second)]).unwrap();
    assert_eq!(store.writer_gen(), 6);
    assert_eq!(store.writer_pos(), 0);
    assert_eq!(store.get(&key("a")), None);
    assert_eq!(store.get(&key("b")), Some(Pointer::new(5, 22, 31)));
    assert_eq!(store.uncompacted_in(2), 62);
    assert_eq!(store.uncompacted_in(5), 22);
    assert_eq!(store.uncompacted(), 84);
}

#[test]
fn a_tombstone_without_a_record_to_erase_is_stale_itself() {
    let mut store = KvStore::new(0);
    store.load(3, b"{\"Remove\":{\"key\":\"ghost\"}}").unwrap();
    assert_eq!(store.uncompacted_in(3), 26);
    assert_eq!(store.len(), 0);
}

#[test]
fn opening_without_logs_starts_at_generation_one() {
    let store = KvStore::open(&Vec::new()).unwrap();
    assert_eq!(store.writer_gen(), 1);
    assert_eq!(store.writer_pos(), 0);
    assert_eq!(store.len(), 0);
}

#[test]
fn logs_out_of_order_are_refused() {
    let log = |gen: u64| LogFile { gen, bytes: Vec::new() };
    assert_eq!(KvStore::open(&vec![log(2), log(1)]).err(), Some(ErrorCode::Internal));
    assert_eq!(KvStore::open(&vec![log(2), log(2)]).err(), Some(ErrorCode::Internal));
    assert_eq!(KvStore::open(&vec![log(u64::MAX)]).err(), Some(ErrorCode::Internal));
    assert_eq!(KvStore::open(&vec![log(1), log(2)]).unwrap().writer_gen(), 3);
}

#[test]
fn a_log_with_anything_but_records_is_corrupted() {
    let log = |text: &str| LogFile { gen: 1, bytes: text.as_bytes().to_vec() };
    let good = "{\"Set\":{\"key\":\"a\",\"value\":\"1\"}}";
    assert!(KvStore::open(&vec![log(good)]).is_ok());
    for bad in [
        "{\"Set\":{\"key\":\"a\",\"value\":\"1\"}}\n",
        "{\"Set\":{\"key\":\"a\",\"value\":\"1\"}",
        "garbage",
        "{\"Set\":{\"key\":\"a\",\"value\":\"1\"}}{\"Set\":",
    ] {
        assert_eq!(KvStore::open(&vec![log(bad)]).err(), Some(ErrorCode::Corrupted), "{:?}", bad);
    }
}
