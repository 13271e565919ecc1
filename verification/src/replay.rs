//! Log replay: rebuilding the index and the statistics from the logs when a
//! store is opened.

use vstd::prelude::*;
use crate::codec::{Command, Record, decode_at, parse_record};
use crate::error::ErrorCode;
use crate::pointer::Pointer;
use crate::stats::GenStale;
use crate::store::{KvStore, StoreView};

verus! {

/// The contents of the log of one generation.
#[derive(Debug)]
pub struct LogFile {
    pub gen: u64,
    pub bytes: Vec<u8>,
}

/// One record of a log with its place in it.
pub struct Scanned {
    pub record: Record,
    pub pos: nat,
    pub len: nat,
}

/// The records that follow one another in `bytes` from offset `at` on, up to
/// the end or up to the first offset at which no record stands, and whether
/// the end was reached.
pub open spec fn scan_from(bytes: Seq<u8>, at: nat) -> (Seq<Scanned>, bool)
    decreases bytes.len() - at,
{
    if at >= bytes.len() {
        (Seq::empty(), true)
    } else {
        match parse_record(bytes.skip(at as int)) {
            None => (Seq::empty(), false),
            Some((record, len)) => if len == 0 || at + len > bytes.len() {
                (Seq::empty(), false)
            } else {
                let (rest, whole) = scan_from(bytes, at + len);
                (seq![Scanned { record, pos: at, len }] + rest, whole)
            },
        }
    }
}

/// The state after the record `r` of generation `gen` was taken in, or
/// `Internal` where the stale bytes would pass 64 bits.
pub open spec fn took(v: StoreView, gen: u64, r: Scanned) -> Result<StoreView, ErrorCode> {
    let ptr = Pointer { gen, pos: r.pos as u64, len: r.len as u64 };
    match r.record {
        Record::SetCommand { key, value } => if v.set_fits(key) {
            Ok(v.with_set(key, ptr))
        } else {
            Err(ErrorCode::Internal)
        },
        Record::RmCommand { key } => if v.remove_fits(key, ptr.len) {
            Ok(v.with_remove(key, ptr))
        } else {
            Err(ErrorCode::Internal)
        },
    }
}

/// The state after the records `recs` of generation `gen` were taken in, in
/// their order.
pub open spec fn replayed(v: StoreView, gen: u64, recs: Seq<Scanned>) -> Result<
    StoreView,
    ErrorCode,
>
    decreases recs.len(),
{
    if recs.len() == 0 {
        Ok(v)
    } else {
        match replayed(v, gen, recs.drop_last()) {
            Err(e) => Err(e),
            Ok(w) => took(w, gen, recs.last()),
        }
    }
}

/// The state after the log `bytes` of generation `gen` was replayed:
/// `Internal` where taking in its records fails, `Corrupted` where the log
/// does not consist of records from its first byte to its last.
pub open spec fn loaded(v: StoreView, gen: u64, bytes: Seq<u8>) -> Result<StoreView, ErrorCode> {
    let (recs, whole) = scan_from(bytes, 0);
    match replayed(v, gen, recs) {
        Err(e) => Err(e),
        Ok(w) => if whole {
            Ok(w)
        } else {
            Err(ErrorCode::Corrupted)
        },
    }
}

/// The state after the logs were replayed in their order, or `Internal`
/// where their generations do not rise strictly.
pub open spec fn replay_logs(logs: Seq<LogFile>) -> Result<StoreView, ErrorCode>
    decreases logs.len(),
{
    if logs.len() == 0 {
        Ok(
            StoreView {
                gen: 0,
                pos: 0,
                index: Map::empty(),
                walk: Seq::empty(),
                stale: Seq::empty(),
            },
        )
    } else {
        match replay_logs(logs.drop_last()) {
            Err(e) => Err(e),
            Ok(v) => if logs.len() >= 2 && logs[logs.len() - 2].gen >= logs.last().gen {
                Err(ErrorCode::Internal)
            } else {
                loaded(v, logs.last().gen, logs.last().bytes@)
            },
        }
    }
}

/// The generation of the active log of a store opened on `logs`: one past
/// the last log, or 1 where there is none.
pub open spec fn next_gen(logs: Seq<LogFile>) -> int {
    if logs.len() == 0 {
        1
    } else {
        logs.last().gen + 1
    }
}

/// The state of a store opened on `logs`.
pub open spec fn opened(logs: Seq<LogFile>) -> Result<StoreView, ErrorCode> {
    match replay_logs(logs) {
        Err(e) => Err(e),
        Ok(v) => if next_gen(logs) > u64::MAX {
            Err(ErrorCode::Internal)
        } else {
            Ok(StoreView { gen: next_gen(logs) as u64, pos: 0, ..v })
        },
    }
}

/// A replay that fails on some records fails on any longer list of them.
pub proof fn replayed_fails_on(v: StoreView, gen: u64, a: Seq<Scanned>, b: Seq<Scanned>)
    requires
        replayed(v, gen, a).is_err(),
    ensures
        replayed(v, gen, a + b) == replayed(v, gen, a),
    decreases b.len(),
{
    if b.len() == 0 {
        assert(a + b =~= a);
    } else {
        assert((a + b).drop_last() =~= a + b.drop_last());
        replayed_fails_on(v, gen, a, b.drop_last());
    }
}

/// Replaying one more record is taking it in after the others.
pub proof fn replayed_push(v: StoreView, gen: u64, recs: Seq<Scanned>, r: Scanned)
    ensures
        replayed(v, gen, recs.push(r)) == (match replayed(v, gen, recs) {
            Err(e) => Err(e),
            Ok(w) => took(w, gen, r),
        }),
{
    assert(recs.push(r).drop_last() =~= recs);
}

/// Replaying records moves neither the writer's generation nor its place.
pub proof fn replayed_keeps_writer(v: StoreView, gen: u64, recs: Seq<Scanned>)
    ensures
        replayed(v, gen, recs).is_ok() ==> replayed(v, gen, recs).unwrap().gen == v.gen
            && replayed(v, gen, recs).unwrap().pos == v.pos,
    decreases recs.len(),
{
    if recs.len() > 0 {
        replayed_keeps_writer(v, gen, recs.drop_last());
    }
}

impl KvStore {
    /// Replays the log `bytes` of generation `gen`: takes in its records one
    /// after the other. Fails with `Corrupted` where the log does not consist
    /// of records from its first byte to its last, and with `Internal` where
    /// the stale bytes would pass 64 bits; the records before the failure
    /// have then been taken in.
    pub fn load(&mut self, gen: u64, bytes: &[u8]) -> (done: Result<(), ErrorCode>)
        requires
            old(self).wf(),
        ensures
            final(self).wf(),
            match done {
                Ok(()) => loaded(old(self)@, gen, bytes@) == Ok::<StoreView, ErrorCode>(
                    final(self)@,
                ),
                Err(e) => loaded(old(self)@, gen, bytes@) == Err::<StoreView, ErrorCode>(e),
            },
    {
        let ghost start = self@;
        let ghost mut seen: Seq<Scanned> = Seq::empty();
        let mut at: usize = 0;
        while at < bytes.len()
            invariant
                self.wf(),
                start == old(self)@,
                at <= bytes@.len(),
                replayed(start, gen, seen) == Ok::<StoreView, ErrorCode>(self@),
                scan_from(bytes@, 0) == (
                    seen + scan_from(bytes@, at as nat).0,
                    scan_from(bytes@, at as nat).1,
                ),
            decreases bytes@.len() - at,
        {
            let (cmd, len) = match decode_at(bytes, at) {
                Some(found) => found,
                None => {
                    proof {
                        assert(scan_from(bytes@, at as nat) == (Seq::<Scanned>::empty(), false));
                        assert(seen + Seq::<Scanned>::empty() =~= seen);
                    }
                    return Err(ErrorCode::Corrupted);
                },
            };
            if len == 0 {
                proof {
                    assert(scan_from(bytes@, at as nat) == (Seq::<Scanned>::empty(), false));
                    assert(seen + Seq::<Scanned>::empty() =~= seen);
                }
                return Err(ErrorCode::Corrupted);
            }
            let ghost r = Scanned { record: cmd@, pos: at as nat, len: len as nat };
            let ghost rest = scan_from(bytes@, (at + len) as nat).0;
            proof {
                assert(scan_from(bytes@, at as nat) == (
                    seq![r] + rest,
                    scan_from(bytes@, (at + len) as nat).1,
                ));
                assert(seen + (seq![r] + rest) =~= seen.push(r) + rest);
                replayed_push(start, gen, seen, r);
            }
            let ptr = Pointer { gen, pos: at as u64, len: len as u64 };
            let done = match cmd {
                Command::SetCommand { key, value } => self.apply(true, key, ptr),
                Command::RmCommand { key } => self.apply(false, key, ptr),
            };
            match done {
                Ok(()) => {},
                Err(e) => {
                    proof {
                        replayed_fails_on(start, gen, seen.push(r), rest);
                    }
                    return Err(e);
                },
            }
            proof {
                seen = seen.push(r);
            }
            at = at + len;
        }
        proof {
            assert(scan_from(bytes@, at as nat) == (Seq::<Scanned>::empty(), true));
            assert(seen + Seq::<Scanned>::empty() =~= seen);
        }
        Ok(())
    }

    /// Opens a store on the logs of a data directory, handed over in rising
    /// order of generation: replays them one after the other and sets the
    /// writer to an empty log one generation past the last. The caller
    /// creates that log.
    ///
    /// Fails with `Corrupted` where a log does not consist of records, and
    /// with `Internal` where the generations do not rise strictly or a
    /// number would pass 64 bits.
    pub fn open(logs: &Vec<LogFile>) -> (done: Result<KvStore, ErrorCode>)
        ensures
            match done {
                Ok(store) => store.wf() && opened(logs@) == Ok::<StoreView, ErrorCode>(store@),
                Err(e) => opened(logs@) == Err::<StoreView, ErrorCode>(e),
            },
    {
        let mut store = KvStore::new(0);
        let mut i: usize = 0;
        while i < logs.len()
            invariant
                i <= logs@.len(),
                store.wf(),
                store@.gen == 0,
                store@.pos == 0,
                replay_logs(logs@.take(i as int)) == Ok::<StoreView, ErrorCode>(store@),
            decreases logs@.len() - i,
        {
            proof {
                assert(logs@.take(i + 1).drop_last() =~= logs@.take(i as int));
                assert(logs@.take(i + 1).last() == logs@[i as int]);
                if i > 0 {
                    assert(logs@.take(i + 1)[i - 1] == logs@[i - 1]);
                }
            }
            if i > 0 && logs[i - 1].gen >= logs[i].gen {
                proof {
                    replay_logs_fails_on(logs@, i + 1);
                }
                return Err(ErrorCode::Internal);
            }
            proof {
                replayed_keeps_writer(store@, logs@[i as int].gen, scan_from(logs@[i as int].bytes@, 0).0);
            }
            match store.load(logs[i].gen, logs[i].bytes.as_slice()) {
                Ok(()) => {},
                Err(e) => {
                    proof {
                        replay_logs_fails_on(logs@, i + 1);
                    }
                    return Err(e);
                },
            }
            i += 1;
        }
        proof {
            assert(logs@.take(logs@.len() as int) =~= logs@);
        }
        let last: u64 = if logs.len() == 0 {
            0
        } else {
            logs[logs.len() - 1].gen
        };
        if last == u64::MAX {
            return Err(ErrorCode::Internal);
        }
        match store.scroll(last + 1) {
            Ok(()) => Ok(store),
            Err(e) => Err(e),
        }
    }
}

proof fn replay_logs_fails_on(logs: Seq<LogFile>, n: int)
    requires
        0 <= n <= logs.len(),
        replay_logs(logs.take(n)).is_err(),
    ensures
        replay_logs(logs) == replay_logs(logs.take(n)),
    decreases logs.len() - n,
{
    if n == logs.len() {
        assert(logs.take(n) =~= logs);
    } else {
        assert(logs.take(n + 1).drop_last() =~= logs.take(n));
        replay_logs_fails_on(logs, n + 1);
    }
}

} // verus!
