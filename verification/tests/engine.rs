//! The engine end to end, on a directory held in memory.

use std::collections::BTreeMap;

use kvs::codec::{decode_value, encode, Command};
use kvs::error::ErrorCode;
use kvs::gens::{log_compact_path, log_path, sorted_gen_list};
use kvs::replay::LogFile;
use kvs::store::{KvStore, Upkeep, COMPACTABLE_THRESHOLD};

/// A data directory: file names and contents.
#[derive(Clone, Default)]
struct Dir {
    files: BTreeMap<String, Vec<u8>>,
}

impl Dir {
    fn size(&self) -> usize {
        self.files.values().map(|bytes| bytes.len()).sum()
    }
}

/// The store joined to a directory, doing to the directory what the store
/// tells its caller to do.
struct Engine {
    dir: Dir,
    store: KvStore,
}

impl Engine {
    fn open(mut dir: Dir) -> Result<Engine, ErrorCode> {
        let names: Vec<String> = dir.files.keys().cloned().collect();
        let mut logs = Vec::new();
        for gen in sorted_gen_list(&names) {
            logs.push(LogFile { gen, bytes: dir.files[&log_path(gen)].clone() });
        }
        let store = KvStore::open(&logs)?;
        let fresh = dir.files.insert(log_path(store.writer_gen()), Vec::new());
        assert!(fresh.is_none());
        Ok(Engine { dir, store })
    }

    fn close(self) -> Dir {
        self.dir
    }

    fn append(&mut self, bytes: &[u8]) -> u64 {
        let log = self.dir.files.get_mut(&log_path(self.store.writer_gen())).unwrap();
        assert_eq!(log.len() as u64, self.store.writer_pos());
        log.extend_from_slice(bytes);
        bytes.len() as u64
    }

    fn perform(&mut self, written_to: u64, upkeep: Upkeep) {
        if upkeep.writer_gen != written_to {
            let fresh = self.dir.files.insert(log_path(upkeep.writer_gen), Vec::new());
            assert!(fresh.is_none());
        }
        assert_eq!(upkeep.writer_gen, self.store.writer_gen());
        if let Some(c) = upkeep.compaction {
            for gen in c.first_output..=c.plan.last_output {
                let fresh = self.dir.files.insert(log_compact_path(gen), Vec::new());
                assert!(fresh.is_none());
            }
            for m in &c.plan.moves {
                let from = &self.dir.files[&log_path(m.from.gen)];
                let bytes = from[m.from.pos as usize..(m.from.pos + m.from.len) as usize].to_vec();
                let to = self.dir.files.get_mut(&log_compact_path(m.to.gen)).unwrap();
                assert_eq!(to.len() as u64, m.to.pos);
                assert_eq!(m.to.len, m.from.len);
                to.extend_from_slice(&bytes);
            }
            for gen in c.first_output..=c.plan.last_output {
                let bytes = self.dir.files.remove(&log_compact_path(gen)).unwrap();
                assert!(self.dir.files.insert(log_path(gen), bytes).is_none());
            }
            for gen in &c.retired {
                assert!(self.dir.files.remove(&log_path(*gen)).is_some());
            }
        }
    }

    fn set(&mut self, key: &str, value: &str) -> Result<(), ErrorCode> {
        let bytes = encode(&Command::set(key.to_string(), value.to_string()))?;
        let gen = self.store.writer_gen();
        let len = self.append(&bytes);
        let upkeep = self.store.set(key.to_string(), len)?;
        self.perform(gen, upkeep);
        Ok(())
    }

    fn get(&self, key: &str) -> Result<Option<String>, ErrorCode> {
        match self.store.get(&key.to_string()) {
            None => Ok(None),
            Some(p) => {
                let log = &self.dir.files[&log_path(p.gen)];
                decode_value(&log[p.pos as usize..(p.pos + p.len) as usize]).map(Some)
            }
        }
    }

    fn remove(&mut self, key: &str) -> Result<(), ErrorCode> {
        if self.store.get(&key.to_string()).is_none() {
            return Err(ErrorCode::KeyNotFound);
        }
        let bytes = encode(&Command::remove(key.to_string()))?;
        let gen = self.store.writer_gen();
        let len = self.append(&bytes);
        let upkeep = self.store.remove(key.to_string(), len)?;
        self.perform(gen, upkeep);
        Ok(())
    }
}

fn some(text: &str) -> Option<String> {
    Some(text.to_string())
}

#[test]
fn basic_put_get() {
    let mut engine = Engine::open(Dir::default()).unwrap();
    engine.set("a", "1").unwrap();
    assert_eq!(engine.get("a"), Ok(some("1")));
    assert_eq!(engine.get("b"), Ok(None));
}

#[test]
fn overwrite() {
    let mut engine = Engine::open(Dir::default()).unwrap();
    engine.set("a", "1").unwrap();
    engine.set("a", "2").unwrap();
    assert_eq!(engine.get("a"), Ok(some("2")));
    let engine = Engine::open(engine.close()).unwrap();
    assert_eq!(engine.get("a"), Ok(some("2")));
}

#[test]
fn remove_then_get() {
    let mut engine = Engine::open(Dir::default()).unwrap();
    engine.set("a", "1").unwrap();
    engine.remove("a").unwrap();
    assert_eq!(engine.get("a"), Ok(None));
    assert_eq!(engine.remove("a"), Err(ErrorCode::KeyNotFound));
}

#[test]
fn remove_of_an_absent_key_appends_nothing() {
    let mut engine = Engine::open(Dir::default()).unwrap();
    engine.set("a", "1").unwrap();
    let before = engine.dir.clone().files;
    assert_eq!(engine.remove("b"), Err(ErrorCode::KeyNotFound));
    assert_eq!(engine.store.remove("b".to_string(), 20).err(), Some(ErrorCode::KeyNotFound));
    assert_eq!(engine.dir.files, before);
    assert_eq!(engine.store.uncompacted(), 0);
}

#[test]
fn set_after_remove_brings_the_key_back() {
    let mut engine = Engine::open(Dir::default()).unwrap();
    engine.set("a", "1").unwrap();
    engine.remove("a").unwrap();
    assert_eq!(engine.get("a"), Ok(None));
    engine.set("a", "3").unwrap();
    assert_eq!(engine.get("a"), Ok(some("3")));
    let engine = Engine::open(engine.close()).unwrap();
    assert_eq!(engine.get("a"), Ok(some("3")));
}

#[test]
fn persistence_across_reopen() {
    let mut engine = Engine::open(Dir::default()).unwrap();
    for i in 1..=100 {
        engine.set(&format!("k{}", i), &format!("v{}", i)).unwrap();
    }
    let engine = Engine::open(engine.close()).unwrap();
    for i in 1..=100 {
        assert_eq!(engine.get(&format!("k{}", i)), Ok(Some(format!("v{}", i))));
    }
    assert_eq!(engine.store.len(), 100);
}

#[test]
fn reopen_starts_one_generation_past_the_last() {
    let engine = Engine::open(Dir::default()).unwrap();
    assert_eq!(engine.store.writer_gen(), 1);
    let engine = Engine::open(engine.close()).unwrap();
    assert_eq!(engine.store.writer_gen(), 2);
    assert_eq!(engine.store.writer_pos(), 0);
    let names: Vec<String> = engine.dir.files.keys().cloned().collect();
    assert_eq!(names, vec!["1.log".to_string(), "2.log".to_string()]);
}

#[test]
fn compaction_triggers_and_preserves_state() {
    let mut engine = Engine::open(Dir::default()).unwrap();
    for i in 0..10_000 {
        engine.set(&format!("k{}", i % 10), &i.to_string()).unwrap();
        assert!(engine.store.uncompacted() < COMPACTABLE_THRESHOLD);
    }
    assert!(engine.dir.size() < 128 * 1024);
    assert!(engine.store.writer_gen() > 1);
    for j in 0..10 {
        assert_eq!(engine.get(&format!("k{}", j)), Ok(Some((9990 + j).to_string())));
    }
    let engine = Engine::open(engine.close()).unwrap();
    for j in 0..10 {
        assert_eq!(engine.get(&format!("k{}", j)), Ok(Some((9990 + j).to_string())));
    }
}

#[test]
fn compaction_leaves_no_retired_log_and_no_temporary_file() {
    let mut dir_names_seen = 0;
    let mut engine = Engine::open(Dir::default()).unwrap();
    for i in 0..3_000 {
        let key = format!("key{}", i % 7);
        let bytes = encode(&Command::set(key.clone(), i.to_string())).unwrap();
        let gen = engine.store.writer_gen();
        let len = engine.append(&bytes);
        let upkeep = engine.store.set(key, len).unwrap();
        let retired = upkeep.compaction.as_ref().map(|c| c.retired.clone());
        engine.perform(gen, upkeep);
        if let Some(retired) = retired {
            dir_names_seen += 1;
            for gen in retired {
                assert!(!engine.dir.files.contains_key(&log_path(gen)));
                assert_eq!(engine.store.uncompacted_in(gen), 0);
            }
            assert!(engine.dir.files.keys().all(|name| name.ends_with(".log")));
        }
    }
    assert!(dir_names_seen > 0);
}

#[test]
fn every_pointer_covers_the_record_of_its_key() {
    let mut engine = Engine::open(Dir::default()).unwrap();
    for i in 0..2_500 {
        engine.set(&format!("k{}", i % 13), &format!("value-{}", i)).unwrap();
        if i % 5 == 0 {
            engine.remove(&format!("k{}", i % 13)).unwrap();
        }
    }
    for j in 0..13 {
        let key = format!("k{}", j);
        if let Some(p) = engine.store.get(&key) {
            let log = &engine.dir.files[&log_path(p.gen)];
            let bytes = &log[p.pos as usize..(p.pos + p.len) as usize];
            let value = engine.get(&key).unwrap().unwrap();
            assert_eq!(bytes, encode(&Command::set(key, value)).unwrap().as_slice());
        } else {
            assert_eq!(engine.get(&key), Ok(None));
        }
    }
}

#[test]
fn disk_bytes_are_live_bytes_plus_stale_bytes() {
    let mut engine = Engine::open(Dir::default()).unwrap();
    for i in 0..4_000 {
        engine.set(&format!("k{}", i % 9), &format!("{}", i * 7)).unwrap();
        if i % 11 == 0 {
            engine.remove(&format!("k{}", i % 9)).unwrap();
        }
    }
    let mut live = 0;
    for j in 0..9 {
        if let Some(p) = engine.store.get(&format!("k{}", j)) {
            live += p.len;
        }
    }
    assert_eq!(engine.dir.size() as u64, live + engine.store.uncompacted());
}

#[test]
fn crash_tolerance() {
    let mut engine = Engine::open(Dir::default()).unwrap();
    engine.set("a", "1").unwrap();
    engine.set("b", "2").unwrap();
    engine.set("a", "3").unwrap();
    let mut dir = engine.close();
    let copy = encode(&Command::set("a".to_string(), "stale".to_string())).unwrap();
    dir.files.insert(log_compact_path(7), copy);
    let engine = Engine::open(dir).unwrap();
    assert_eq!(engine.get("a"), Ok(some("3")));
    assert_eq!(engine.get("b"), Ok(some("2")));
    assert_eq!(engine.store.writer_gen(), 2);
    assert!(engine.dir.files.contains_key("7.tmp"));
}

#[test]
fn crash_between_publishing_and_retiring_converges() {
    // both the old log and the compacted copy of its live record exist
    let mut dir = Dir::default();
    let old = encode(&Command::set("a".to_string(), "1".to_string())).unwrap();
    let newer = encode(&Command::set("a".to_string(), "2".to_string())).unwrap();
    let mut first = old.clone();
    first.extend_from_slice(&newer);
    dir.files.insert(log_path(1), first);
    dir.files.insert(log_path(2), newer.clone());
    let engine = Engine::open(dir).unwrap();
    assert_eq!(engine.get("a"), Ok(some("2")));
    let p = engine.store.get(&"a".to_string()).unwrap();
    assert_eq!((p.gen, p.pos, p.len), (2, 0, newer.len() as u64));
    assert_eq!(engine.store.uncompacted_in(1), (old.len() + newer.len()) as u64);
    assert_eq!(engine.store.writer_gen(), 3);
}

#[test]
fn open_fails_on_a_log_that_does_not_decode() {
    let mut dir = Dir::default();
    let mut bytes = encode(&Command::set("a".to_string(), "1".to_string())).unwrap();
    bytes.extend_from_slice(b"{\"Set\":{\"key\":\"b\"");
    dir.files.insert(log_path(1), bytes);
    assert_eq!(Engine::open(dir).err(), Some(ErrorCode::Corrupted));
}

#[test]
fn stray_files_are_ignored_on_open() {
    let mut dir = Dir::default();
    dir.files.insert(".engine".to_string(), b"kvs".to_vec());
    dir.files.insert("notes.log".to_string(), b"not a record".to_vec());
    dir.files.insert("03.log".to_string(), b"not a record".to_vec());
    dir.files.insert(
        log_path(3),
        encode(&Command::set("a".to_string(), "1".to_string())).unwrap(),
    );
    let engine = Engine::open(dir).unwrap();
    assert_eq!(engine.get("a"), Ok(some("1")));
    assert_eq!(engine.store.writer_gen(), 4);
}

#[test]
fn the_log_rolls_at_the_file_threshold() {
    let mut engine = Engine::open(Dir::default()).unwrap();
    let value = "x".repeat(1000);
    let mut i = 0;
    while engine.store.writer_gen() == 1 {
        engine.set(&format!("k{}", i), &value).unwrap();
        i += 1;
    }
    assert_eq!(engine.store.writer_gen(), 2);
    assert_eq!(engine.store.writer_pos(), 0);
    let first = engine.dir.files["1.log"].len();
    assert!(first >= 32 * 1024);
    assert!(first < 32 * 1024 + 1100);
    assert_eq!(engine.dir.files["2.log"].len(), 0);
    assert_eq!(engine.store.uncompacted(), 0);
}
