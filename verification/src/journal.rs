//! The history of a store as the list of the records that were written, and
//! how replaying it gives back what the write path built.
//!
//! These laws speak of histories without compaction. A compaction may retire
//! a generation that holds a `Remove` record while an older generation still
//! holds a `Set` record of the same key; replaying the logs then brings the
//! key back.

use vstd::prelude::*;
use crate::codec::Record;
use crate::error::ErrorCode;
use crate::replay::{LogFile, Scanned, loaded, next_gen, opened, replay_logs, replayed, scan_from, took};
use crate::store::StoreView;

verus! {

/// One record of the history: the generation that it was written to, and
/// the record with its place.
pub struct Logged {
    pub gen: u64,
    pub rec: Scanned,
}

/// The state after the records of `journal` were taken in, in their order.
pub open spec fn replay_journal(v: StoreView, journal: Seq<Logged>) -> Result<
    StoreView,
    ErrorCode,
>
    decreases journal.len(),
{
    if journal.len() == 0 {
        Ok(v)
    } else {
        match replay_journal(v, journal.drop_last()) {
            Err(e) => Err(e),
            Ok(w) => took(w, journal.last().gen, journal.last().rec),
        }
    }
}

/// The records `recs` as records of generation `gen`.
pub open spec fn tagged(gen: u64, recs: Seq<Scanned>) -> Seq<Logged> {
    Seq::new(recs.len(), |i: int| Logged { gen, rec: recs[i] })
}

/// The records of all logs, log after log.
pub open spec fn journal_of(logs: Seq<LogFile>) -> Seq<Logged>
    decreases logs.len(),
{
    if logs.len() == 0 {
        Seq::empty()
    } else {
        journal_of(logs.drop_last()) + tagged(logs.last().gen, scan_from(logs.last().bytes@, 0).0)
    }
}

/// Every log consists of records from its first byte to its last.
pub open spec fn all_whole(logs: Seq<LogFile>) -> bool {
    forall|i: int| 0 <= i < logs.len() ==> (#[trigger] scan_from(logs[i].bytes@, 0)).1
}

/// The generations of the logs rise strictly.
pub open spec fn rising_logs(logs: Seq<LogFile>) -> bool {
    forall|i: int, j: int| 0 <= i < j < logs.len() ==> logs[i].gen < logs[j].gen
}

/// Two states have the same index, walk order and statistics.
pub open spec fn same_ledger(a: StoreView, b: StoreView) -> bool {
    a.index == b.index && a.walk == b.walk && a.stale == b.stale
}

/// The state of a store that holds nothing.
pub open spec fn blank() -> StoreView {
    StoreView { gen: 0, pos: 0, index: Map::empty(), walk: Seq::empty(), stale: Seq::empty() }
}

/// Taking in a record depends on the index, the walk order and the
/// statistics alone.
pub proof fn took_same_ledger(a: StoreView, b: StoreView, gen: u64, r: Scanned)
    requires
        same_ledger(a, b),
    ensures
        took(a, gen, r).is_ok() == took(b, gen, r).is_ok(),
        took(a, gen, r).is_ok() ==> same_ledger(took(a, gen, r).unwrap(), took(b, gen, r).unwrap()),
        took(a, gen, r).is_err() ==> took(a, gen, r) == took(b, gen, r),
{
}

/// Replaying a journal and then the records of one more log is replaying
/// the journal with those records at its end.
pub proof fn replay_journal_append(v: StoreView, journal: Seq<Logged>, gen: u64, recs: Seq<Scanned>)
    ensures
        replay_journal(v, journal + tagged(gen, recs)) == (match replay_journal(v, journal) {
            Err(e) => Err(e),
            Ok(w) => replayed(w, gen, recs),
        }),
    decreases recs.len(),
{
    if recs.len() == 0 {
        assert(journal + tagged(gen, recs) =~= journal);
    } else {
        let whole = journal + tagged(gen, recs);
        assert(whole.drop_last() =~= journal + tagged(gen, recs.drop_last()));
        assert(whole.last() == (Logged { gen, rec: recs.last() }));
        replay_journal_append(v, journal, gen, recs.drop_last());
    }
}

/// The write path and the replay agree on a `Set` record: where a journal
/// replays to the store's index and statistics, the journal with the record
/// of a `set` at its end replays to what the store holds after the `set`.
pub proof fn set_extends_journal(
    base: StoreView,
    journal: Seq<Logged>,
    v: StoreView,
    key: Seq<char>,
    value: Seq<char>,
    len: u64,
)
    requires
        replay_journal(base, journal).is_ok(),
        same_ledger(replay_journal(base, journal).unwrap(), v),
        v.put_fits(key, len),
    ensures
        replay_journal(
            base,
            journal.push(
                Logged {
                    gen: v.gen,
                    rec: Scanned {
                        record: Record::SetCommand { key, value },
                        pos: v.pos as nat,
                        len: len as nat,
                    },
                },
            ),
        ).is_ok(),
        same_ledger(
            replay_journal(
                base,
                journal.push(
                    Logged {
                        gen: v.gen,
                        rec: Scanned {
                            record: Record::SetCommand { key, value },
                            pos: v.pos as nat,
                            len: len as nat,
                        },
                    },
                ),
            ).unwrap(),
            v.put(key, len),
        ),
{
    let r = Scanned { record: Record::SetCommand { key, value }, pos: v.pos as nat, len: len as nat };
    let entry = Logged { gen: v.gen, rec: r };
    assert(journal.push(entry).drop_last() =~= journal);
    took_same_ledger(replay_journal(base, journal).unwrap(), v, v.gen, r);
}

/// The write path and the replay agree on a `Remove` record.
pub proof fn remove_extends_journal(
    base: StoreView,
    journal: Seq<Logged>,
    v: StoreView,
    key: Seq<char>,
    len: u64,
)
    requires
        replay_journal(base, journal).is_ok(),
        same_ledger(replay_journal(base, journal).unwrap(), v),
        v.erase_fits(key, len),
    ensures
        replay_journal(
            base,
            journal.push(
                Logged {
                    gen: v.gen,
                    rec: Scanned {
                        record: Record::RmCommand { key },
                        pos: v.pos as nat,
                        len: len as nat,
                    },
                },
            ),
        ).is_ok(),
        same_ledger(
            replay_journal(
                base,
                journal.push(
                    Logged {
                        gen: v.gen,
                        rec: Scanned {
                            record: Record::RmCommand { key },
                            pos: v.pos as nat,
                            len: len as nat,
                        },
                    },
                ),
            ).unwrap(),
            v.erase(key, len),
        ),
{
    let r = Scanned { record: Record::RmCommand { key }, pos: v.pos as nat, len: len as nat };
    let entry = Logged { gen: v.gen, rec: r };
    assert(journal.push(entry).drop_last() =~= journal);
    took_same_ledger(replay_journal(base, journal).unwrap(), v, v.gen, r);
}

/// Replaying logs that consist of records, in rising order of generation, is
/// replaying their journal.
pub proof fn logs_replay_journal(logs: Seq<LogFile>)
    requires
        rising_logs(logs),
        all_whole(logs),
    ensures
        replay_logs(logs) == replay_journal(blank(), journal_of(logs)),
    decreases logs.len(),
{
    if logs.len() > 0 {
        let rest = logs.drop_last();
        assert forall|i: int| 0 <= i < rest.len() implies (#[trigger] scan_from(
            rest[i].bytes@,
            0,
        )).1 by {
            assert(rest[i] == logs[i]);
        }
        assert forall|i: int, j: int| 0 <= i < j < rest.len() implies rest[i].gen
            < rest[j].gen by {
            assert(rest[i] == logs[i] && rest[j] == logs[j]);
        }
        logs_replay_journal(rest);
        let recs = scan_from(logs.last().bytes@, 0).0;
        assert(scan_from(logs[logs.len() - 1].bytes@, 0).1);
        replay_journal_append(blank(), journal_of(rest), logs.last().gen, recs);
    }
}

/// Reopening preserves the index: where the logs consist of the records
/// that were written, and the store holds what replaying them gives, a store
/// opened on the logs holds the same index and statistics, with its writer
/// one generation past the last log.
pub proof fn reopen_preserves(logs: Seq<LogFile>, v: StoreView)
    requires
        rising_logs(logs),
        all_whole(logs),
        replay_journal(blank(), journal_of(logs)).is_ok(),
        same_ledger(replay_journal(blank(), journal_of(logs)).unwrap(), v),
        next_gen(logs) <= u64::MAX,
    ensures
        opened(logs).is_ok(),
        same_ledger(opened(logs).unwrap(), v),
        opened(logs).unwrap().gen == next_gen(logs),
        opened(logs).unwrap().pos == 0,
{
    logs_replay_journal(logs);
}

} // verus!
