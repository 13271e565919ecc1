//! The engine's state: the index, the staleness statistics and the active
//! writer's place, with the write path, the read path and the upkeep of the
//! logs.
//!
//! The store performs no file operation. Its caller appends each record to
//! the active log, tells the store how long the record is, and carries out
//! the upkeep that the store answers with.

use vstd::prelude::*;
use crate::error::ErrorCode;
use crate::index::Index;
use crate::pointer::Pointer;
use crate::rewrite::{FILE_THRESHOLD, Move, Plan, Slot, cursor, is_plan, lens_at, plan, slots_of, sources};
use crate::select::{is_selection, select};
use crate::stats::{GenStale, Statistics, cleared, credited, sum};

verus! {

/// A compaction starts once this many stale bytes have gathered.
pub const COMPACTABLE_THRESHOLD: u64 = 32 * 1024;

/// The state of a store as a mathematical value.
pub struct StoreView {
    /// The generation of the active log.
    pub gen: u64,
    /// The length of the active log: where the next record goes.
    pub pos: u64,
    /// The pointer of every live key.
    pub index: Map<Seq<char>, Pointer>,
    /// The live keys in the order in which a compaction walks them.
    pub walk: Seq<Seq<char>>,
    /// The stale bytes of the generations.
    pub stale: Seq<GenStale>,
}

impl StoreView {
    /// The live keys with their pointers, in walk order.
    pub open spec fn slots(self) -> Seq<Slot> {
        Seq::new(self.walk.len(), |i: int| Slot { key: self.walk[i], ptr: self.index[self.walk[i]] })
    }

    /// The stale bytes after the record that `key` pointed to, if any, has
    /// become stale.
    pub open spec fn stale_without(self, key: Seq<char>) -> Seq<GenStale> {
        if self.index.contains_key(key) {
            credited(self.stale, self.index[key].gen, self.index[key].len)
        } else {
            self.stale
        }
    }

    /// The bytes that become stale when `key` loses its record.
    pub open spec fn held_by(self, key: Seq<char>) -> nat {
        if self.index.contains_key(key) {
            self.index[key].len as nat
        } else {
            0
        }
    }

    /// The state after a `Set` record for `key` was found at `ptr`: the key
    /// points there, and the record that it pointed to before is stale.
    pub open spec fn with_set(self, key: Seq<char>, ptr: Pointer) -> StoreView {
        StoreView {
            index: self.index.insert(key, ptr),
            walk: if self.index.contains_key(key) {
                self.walk
            } else {
                self.walk.push(key)
            },
            stale: self.stale_without(key),
            ..self
        }
    }

    /// The state after a `Remove` record for `key` was found at `ptr`: the
    /// key is gone, and both the record that it pointed to and the `Remove`
    /// record itself are stale.
    pub open spec fn with_remove(self, key: Seq<char>, ptr: Pointer) -> StoreView {
        StoreView {
            index: self.index.remove(key),
            walk: if self.index.contains_key(key) {
                self.walk.remove(self.walk.index_of(key))
            } else {
                self.walk
            },
            stale: credited(self.stale_without(key), ptr.gen, ptr.len),
            ..self
        }
    }

    /// Whether the stale bytes still fit in 64 bits after a `Set` record for
    /// `key`.
    pub open spec fn set_fits(self, key: Seq<char>) -> bool {
        sum(self.stale) + self.held_by(key) <= u64::MAX
    }

    /// Whether the stale bytes still fit in 64 bits after a `Remove` record
    /// of `len` bytes for `key`.
    pub open spec fn remove_fits(self, key: Seq<char>, len: u64) -> bool {
        sum(self.stale) + self.held_by(key) + len <= u64::MAX
    }

    /// The place of a record of `len` bytes appended to the active log.
    pub open spec fn next(self, len: u64) -> Pointer {
        Pointer { gen: self.gen, pos: self.pos, len }
    }

    /// Whether a `Set` record of `len` bytes for `key` can be taken in.
    pub open spec fn put_fits(self, key: Seq<char>, len: u64) -> bool {
        self.pos + len <= u64::MAX && self.set_fits(key)
    }

    /// The state after a `Set` record of `len` bytes for `key` was appended
    /// to the active log.
    pub open spec fn put(self, key: Seq<char>, len: u64) -> StoreView {
        StoreView { pos: (self.pos + len) as u64, ..self.with_set(key, self.next(len)) }
    }

    /// Whether a `Remove` record of `len` bytes for `key` can be taken in.
    pub open spec fn erase_fits(self, key: Seq<char>, len: u64) -> bool {
        self.pos + len <= u64::MAX && self.remove_fits(key, len)
    }

    /// The state after a `Remove` record of `len` bytes for `key` was
    /// appended to the active log.
    pub open spec fn erase(self, key: Seq<char>, len: u64) -> StoreView {
        StoreView { pos: (self.pos + len) as u64, ..self.with_remove(key, self.next(len)) }
    }

    /// Whether the active log has reached the size at which it is closed.
    pub open spec fn roll_due(self) -> bool {
        self.pos >= FILE_THRESHOLD
    }

    /// Whether enough stale bytes have gathered to compact.
    pub open spec fn compaction_due(self) -> bool {
        sum(self.stale) >= COMPACTABLE_THRESHOLD
    }

    /// The state after the writer moved `step` generations on, to an empty
    /// log.
    pub open spec fn scrolled(self, step: u64) -> StoreView {
        StoreView { gen: (self.gen + step) as u64, pos: 0, ..self }
    }
}

/// What one compaction does to the files. The caller creates the logs of the
/// generations `first_output` to `plan.last_output` under their temporary
/// names, copies each move's bytes in order, gives the outputs their log
/// names, and only then deletes the logs of the `retired` generations.
#[derive(Debug)]
pub struct Compaction {
    /// The generations whose logs are deleted, the stalest first.
    pub retired: Vec<u64>,
    /// The stale bytes that the retired generations held.
    pub reclaimed: u64,
    /// The first generation that the compaction writes to.
    pub first_output: u64,
    /// The copies, and the last generation that the compaction writes to.
    pub plan: Plan,
}

/// What the caller must do to the files after a write.
#[derive(Debug)]
pub struct Upkeep {
    /// The compaction to carry out, if one was due.
    pub compaction: Option<Compaction>,
    /// The generation of the active log from now on. Where it is not the one
    /// that the record was appended to, the caller creates its log, empty,
    /// before anything else.
    pub writer_gen: u64,
}

/// `stale` without the records of the generations `picks`.
pub open spec fn cleared_all(stale: Seq<GenStale>, picks: Seq<u64>) -> Seq<GenStale>
    decreases picks.len(),
{
    if picks.len() == 0 {
        stale
    } else {
        cleared(cleared_all(stale, picks.drop_last()), picks.last())
    }
}

/// `index` after the key of each move points to where the move took its
/// record.
pub open spec fn moved(index: Map<Seq<char>, Pointer>, moves: Seq<Move>) -> Map<
    Seq<char>,
    Pointer,
>
    decreases moves.len(),
{
    if moves.len() == 0 {
        index
    } else {
        moved(index, moves.drop_last()).insert(moves.last().key@, moves.last().to)
    }
}

impl StoreView {
    /// The lengths of the live records that lie in the generations `picks`,
    /// in walk order.
    pub open spec fn live_lens(self, picks: Seq<u64>) -> Seq<u64> {
        lens_at(self.slots(), sources(self.slots(), picks))
    }

    /// The generation of the active log after a compaction that retired
    /// `picks` generations and wrote up to generation `last_output`: past
    /// every output, and at least one more than the retired generations on
    /// from the old one.
    pub open spec fn writer_after(self, picks: nat, last_output: u64) -> int {
        if self.gen + picks >= last_output {
            self.gen + picks + 1
        } else {
            last_output + 1
        }
    }

    /// Whether the numbers of a compaction that retires `picks` stay within
    /// 64 bits.
    pub open spec fn compaction_fits(self, picks: Seq<u64>) -> bool {
        &&& self.gen < u64::MAX
        &&& cursor((self.gen + 1) as u64, self.live_lens(picks)).is_some()
        &&& self.writer_after(
            picks.len(),
            cursor((self.gen + 1) as u64, self.live_lens(picks)).unwrap().0,
        ) <= u64::MAX
    }

    /// `c` is a compaction of this state and `post` the state after it: the
    /// stalest generations are retired, their live records are laid out in
    /// new generations right after the active one, the index points to the
    /// copies, the retired generations hold no stale bytes any more, and the
    /// writer has moved past every output to an empty log.
    pub open spec fn compacted(self, c: Compaction, post: StoreView) -> bool {
        &&& is_selection(self.stale, c.retired@, c.reclaimed as nat)
        &&& self.compaction_fits(c.retired@)
        &&& c.first_output == self.gen + 1
        &&& is_plan(self.slots(), c.retired@, c.first_output, c.plan)
        &&& post.gen == self.writer_after(c.retired@.len(), c.plan.last_output)
        &&& post.pos == 0
        &&& post.stale == cleared_all(self.stale, c.retired@)
        &&& post.index == moved(self.index, c.plan.moves@)
        &&& post.walk == self.walk
    }

    /// `u` is the upkeep that this state calls for and `post` the state after
    /// it: a compaction where one is due; else a new active log where the
    /// old one is full; else nothing.
    pub open spec fn upkeep_done(self, u: Upkeep, post: StoreView) -> bool {
        &&& u.writer_gen == post.gen
        &&& if self.compaction_due() {
            u.compaction.is_some() && self.compacted(u.compaction.unwrap(), post)
        } else {
            u.compaction.is_none() && (self.roll_due() ==> self.gen < u64::MAX) && post == (if self.roll_due() {
                self.scrolled(1)
            } else {
                self
            })
        }
    }

    /// The upkeep that this state calls for does not fit in 64 bits.
    pub open spec fn upkeep_fails(self) -> bool {
        if self.compaction_due() {
            exists|picks: Seq<u64>, bytes: nat|
                is_selection(self.stale, picks, bytes) && !self.compaction_fits(picks)
        } else {
            self.roll_due() && self.gen == u64::MAX
        }
    }
}

/// The engine's state.
pub struct KvStore {
    sequence_no: u64,
    position: u64,
    index: Index,
    stats: Statistics,
}

impl View for KvStore {
    type V = StoreView;

    closed spec fn view(&self) -> StoreView {
        StoreView {
            gen: self.sequence_no,
            pos: self.position,
            index: self.index@,
            walk: self.index.order(),
            stale: self.stats@,
        }
    }
}

impl KvStore {
    /// The index and the statistics are well formed.
    pub closed spec fn wf(self) -> bool {
        self.index.wf() && self.stats.wf()
    }

    /// In a well-formed store the walk lists every live key once, no
    /// generation is recorded twice, and the stale bytes fit in 64 bits.
    pub proof fn wf_view(self)
        requires
            self.wf(),
        ensures
            self@.walk.no_duplicates(),
            forall|k: Seq<char>| self@.walk.contains(k) <==> #[trigger] self@.index.contains_key(k),
            crate::stats::distinct_gens(self@.stale),
            sum(self@.stale) <= u64::MAX,
    {
        self.index.order_lists_keys();
        self.stats.total_is_sum();
    }

    /// A store without keys whose active log is the empty log of generation
    /// `gen`.
    pub fn new(gen: u64) -> (store: KvStore)
        ensures
            store.wf(),
            store@ == (StoreView {
                gen,
                pos: 0,
                index: Map::<Seq<char>, Pointer>::empty(),
                walk: Seq::<Seq<char>>::empty(),
                stale: Seq::<GenStale>::empty(),
            }),
    {
        KvStore { sequence_no: gen, position: 0, index: Index::new(), stats: Statistics::new() }
    }

    /// The generation of the active log.
    pub fn writer_gen(&self) -> (gen: u64)
        ensures
            gen == self@.gen,
    {
        self.sequence_no
    }

    /// The length of the active log.
    pub fn writer_pos(&self) -> (pos: u64)
        ensures
            pos == self@.pos,
    {
        self.position
    }

    /// The number of live keys.
    pub fn len(&self) -> (n: usize)
        ensures
            n == self@.walk.len(),
    {
        self.index.len()
    }

    /// The stale bytes of all generations together.
    pub fn uncompacted(&self) -> (bytes: u64)
        requires
            self.wf(),
        ensures
            bytes == sum(self@.stale),
    {
        self.stats.total()
    }

    /// The stale bytes recorded for generation `gen`.
    pub fn uncompacted_in(&self, gen: u64) -> (bytes: u64)
        requires
            self.wf(),
        ensures
            bytes == crate::stats::stale_of(self@.stale, gen),
    {
        self.stats.get(gen)
    }

    /// Where the record with the value of `key` lies; `None` where the key
    /// has no mapping. The caller reads exactly those bytes and hands them to
    /// `decode_value`.
    pub fn get(&self, key: &String) -> (found: Option<Pointer>)
        requires
            self.wf(),
        ensures
            found == (if self@.index.contains_key(key@) {
                Some(self@.index[key@])
            } else {
                None
            }),
    {
        self.index.get(key)
    }

    /// Takes in a record found at `ptr` while replaying a log: `Set` where
    /// `is_set`, else `Remove`. Fails with `Internal`, changing nothing,
    /// where the stale bytes would pass 64 bits.
    pub fn apply(&mut self, is_set: bool, key: String, ptr: Pointer) -> (done: Result<
        (),
        ErrorCode,
    >)
        requires
            old(self).wf(),
        ensures
            final(self).wf(),
            match done {
                Ok(()) => if is_set {
                    old(self)@.set_fits(key@) && final(self)@ == old(self)@.with_set(key@, ptr)
                } else {
                    old(self)@.remove_fits(key@, ptr.len) && final(self)@ == old(self)@.with_remove(
                        key@,
                        ptr,
                    )
                },
                Err(e) => e == ErrorCode::Internal && final(self)@ == old(self)@ && !(if is_set {
                    old(self)@.set_fits(key@)
                } else {
                    old(self)@.remove_fits(key@, ptr.len)
                }),
            },
    {
        let held = self.index.get(&key);
        let total = self.stats.total();
        let freed: u64 = match held {
            Some(p) => p.len,
            None => 0,
        };
        if freed > u64::MAX - total {
            return Err(ErrorCode::Internal);
        }
        if !is_set && ptr.len > u64::MAX - total - freed {
            return Err(ErrorCode::Internal);
        }
        if let Some(p) = held {
            proof {
                self.stats.total_is_sum();
                crate::stats::credited_sum(self.stats@, p.gen, p.len);
            }
            match self.stats.credit(p.gen, p.len) {
                Ok(()) => {},
                Err(e) => {
                    return Err(e);
                },
            }
        }
        if is_set {
            self.index.insert(key, ptr);
        } else {
            self.index.remove(&key);
            match self.stats.credit(ptr.gen, ptr.len) {
                Ok(()) => {},
                Err(e) => {
                    return Err(e);
                },
            }
        }
        Ok(())
    }
    /// Moves the writer `step` generations on, to an empty log. Fails with
    /// `Internal`, changing nothing, where the generation would pass 64 bits.
    pub fn scroll(&mut self, step: u64) -> (done: Result<(), ErrorCode>)
        requires
            old(self).wf(),
        ensures
            final(self).wf(),
            match done {
                Ok(()) => old(self)@.gen + step <= u64::MAX && final(self)@ == old(self)@.scrolled(
                    step,
                ),
                Err(e) => e == ErrorCode::Internal && old(self)@.gen + step > u64::MAX && final(self)@ == old(self)@,
            },
    {
        if step > u64::MAX - self.sequence_no {
            return Err(ErrorCode::Internal);
        }
        self.sequence_no = self.sequence_no + step;
        self.position = 0;
        Ok(())
    }

    /// Closes the active log where it has reached `FILE_THRESHOLD` and says
    /// whether it did.
    pub fn try_trigger_scroll(&mut self) -> (done: Result<bool, ErrorCode>)
        requires
            old(self).wf(),
        ensures
            final(self).wf(),
            match done {
                Ok(rolled) => rolled == old(self)@.roll_due() && final(self)@ == (if rolled {
                    old(self)@.scrolled(1)
                } else {
                    old(self)@
                }) && (rolled ==> old(self)@.gen < u64::MAX),
                Err(e) => e == ErrorCode::Internal && old(self)@.roll_due() && old(self)@.gen
                    == u64::MAX && final(self)@ == old(self)@,
            },
    {
        if self.position >= FILE_THRESHOLD {
            match self.scroll(1) {
                Ok(()) => Ok(true),
                Err(e) => Err(e),
            }
        } else {
            Ok(false)
        }
    }

    /// Compacts: retires the stalest generations and lays out their live
    /// records in new ones. Fails with `Internal`, changing nothing, where a
    /// number would pass 64 bits.
    pub fn compact(&mut self) -> (done: Result<Compaction, ErrorCode>)
        requires
            old(self).wf(),
        ensures
            final(self).wf(),
            match done {
                Ok(c) => old(self)@.compacted(c, final(self)@),
                Err(e) => e == ErrorCode::Internal && final(self)@ == old(self)@ && exists|
                    picks: Seq<u64>,
                    bytes: nat,
                |
                    is_selection(old(self)@.stale, picks, bytes) && !old(self)@.compaction_fits(
                        picks,
                    ),
            },
    {
        let ghost pre = self@;
        let chosen = select(&self.stats);
        if self.sequence_no == u64::MAX {
            proof {
                assert(is_selection(pre.stale, chosen.gens@, chosen.bytes as nat)
                    && !pre.compaction_fits(chosen.gens@));
            }
            return Err(ErrorCode::Internal);
        }
        let first = self.sequence_no + 1;
        let pairs = self.index.pairs();
        proof {
            assert(slots_of(pairs@) =~= pre.slots());
        }
        let laid = match plan(&pairs, &chosen.gens, first) {
            Ok(laid) => laid,
            Err(e) => {
                proof {
                    assert(is_selection(pre.stale, chosen.gens@, chosen.bytes as nat)
                        && !pre.compaction_fits(chosen.gens@));
                }
                return Err(e);
            },
        };
        let count = chosen.gens.len() as u64;
        if count >= u64::MAX - self.sequence_no || laid.last_output == u64::MAX {
            proof {
                assert(is_selection(pre.stale, chosen.gens@, chosen.bytes as nat)
                    && !pre.compaction_fits(chosen.gens@));
            }
            return Err(ErrorCode::Internal);
        }
        let writer = if self.sequence_no + count >= laid.last_output {
            self.sequence_no + count + 1
        } else {
            laid.last_output + 1
        };
        let mut i: usize = 0;
        while i < chosen.gens.len()
            invariant
                i <= chosen.gens@.len(),
                self.stats.wf(),
                self.index.wf(),
                self.index@ == pre.index,
                self.index.order() == pre.walk,
                self.sequence_no == pre.gen,
                self.position == pre.pos,
                self.stats@ == cleared_all(pre.stale, chosen.gens@.take(i as int)),
            decreases chosen.gens@.len() - i,
        {
            self.stats.clear(chosen.gens[i]);
            i += 1;
            proof {
                assert(chosen.gens@.take(i as int).drop_last() =~= chosen.gens@.take(i - 1));
            }
        }
        proof {
            assert(chosen.gens@.take(chosen.gens@.len() as int) =~= chosen.gens@);
            crate::rewrite::sources_are_places(pre.slots(), chosen.gens@);
            self.index.order_lists_keys();
        }
        let mut j: usize = 0;
        while j < laid.moves.len()
            invariant
                j <= laid.moves@.len(),
                self.stats.wf(),
                self.index.wf(),
                self.sequence_no == pre.gen,
                self.position == pre.pos,
                self.stats@ == cleared_all(pre.stale, chosen.gens@),
                is_plan(pre.slots(), chosen.gens@, first, laid),
                forall|p: int|
                    0 <= p < sources(pre.slots(), chosen.gens@).len() ==> 0 <= #[trigger] sources(
                        pre.slots(),
                        chosen.gens@,
                    )[p] < pre.slots().len(),
                forall|k: Seq<char>| pre.walk.contains(k) <==> #[trigger] pre.index.contains_key(k),
                self.index.order() == pre.walk,
                forall|k: Seq<char>| pre.index.contains_key(k) ==> self.index@.contains_key(k),
                self.index@ == moved(pre.index, laid.moves@.take(j as int)),
            decreases laid.moves@.len() - j,
        {
            let ghost place = sources(pre.slots(), chosen.gens@)[j as int];
            proof {
                assert(crate::rewrite::placed(
                    pre.slots(),
                    sources(pre.slots(), chosen.gens@),
                    first,
                    laid.moves@[j as int],
                    j as int,
                ));
                assert(pre.slots()[place].key == pre.walk[place]);
                assert(pre.walk.contains(pre.walk[place]));
                assert(pre.index.contains_key(pre.walk[place]));
                assert(self.index@.contains_key(laid.moves@[j as int].key@));
            }
            self.index.insert(laid.moves[j].key.clone(), laid.moves[j].to);
            j += 1;
            proof {
                assert(laid.moves@.take(j as int).drop_last() =~= laid.moves@.take(j - 1));
            }
        }
        proof {
            assert(laid.moves@.take(laid.moves@.len() as int) =~= laid.moves@);
        }
        self.sequence_no = writer;
        self.position = 0;
        Ok(Compaction { retired: chosen.gens, reclaimed: chosen.bytes, first_output: first, plan: laid })
    }

    /// Compacts where `COMPACTABLE_THRESHOLD` stale bytes have gathered.
    pub fn try_trigger_compact(&mut self) -> (done: Result<Option<Compaction>, ErrorCode>)
        requires
            old(self).wf(),
        ensures
            final(self).wf(),
            match done {
                Ok(Some(c)) => old(self)@.compaction_due() && old(self)@.compacted(
                    c,
                    final(self)@,
                ),
                Ok(None) => !old(self)@.compaction_due() && final(self)@ == old(self)@,
                Err(e) => e == ErrorCode::Internal && final(self)@ == old(self)@ && old(self)@.compaction_due() && old(self)@.upkeep_fails(),
            },
    {
        if self.stats.total() >= COMPACTABLE_THRESHOLD {
            match self.compact() {
                Ok(c) => Ok(Some(c)),
                Err(e) => Err(e),
            }
        } else {
            Ok(None)
        }
    }

    /// The upkeep after a write: the compaction trigger, then the file-roll
    /// trigger.
    fn upkeep(&mut self) -> (done: Result<Upkeep, ErrorCode>)
        requires
            old(self).wf(),
        ensures
            final(self).wf(),
            match done {
                Ok(u) => old(self)@.upkeep_done(u, final(self)@),
                Err(e) => e == ErrorCode::Internal && final(self)@ == old(self)@ && old(self)@.upkeep_fails(),
            },
    {
        let compaction = match self.try_trigger_compact() {
            Ok(c) => c,
            Err(e) => {
                return Err(e);
            },
        };
        match self.try_trigger_scroll() {
            Ok(_) => {},
            Err(e) => {
                return Err(e);
            },
        }
        Ok(Upkeep { compaction, writer_gen: self.sequence_no })
    }

    /// Takes in a `Set` record of `len` bytes for `key` that the caller has
    /// appended to the active log: the key now points to it, the record that
    /// it pointed to before is stale, and the upkeep that is due is done.
    ///
    /// Fails with `Internal` where a number would pass 64 bits: before the
    /// record is taken in, changing nothing, or in the upkeep, with the
    /// record taken in.
    pub fn set(&mut self, key: String, len: u64) -> (done: Result<Upkeep, ErrorCode>)
        requires
            old(self).wf(),
        ensures
            final(self).wf(),
            match done {
                Ok(u) => old(self)@.put_fits(key@, len) && old(self)@.put(key@, len).upkeep_done(
                    u,
                    final(self)@,
                ),
                Err(e) => e == ErrorCode::Internal && (if old(self)@.put_fits(key@, len) {
                    final(self)@ == old(self)@.put(key@, len) && final(self)@.upkeep_fails()
                } else {
                    final(self)@ == old(self)@
                }),
            },
    {
        if len > u64::MAX - self.position {
            return Err(ErrorCode::Internal);
        }
        let ptr = Pointer { gen: self.sequence_no, pos: self.position, len };
        match self.apply(true, key, ptr) {
            Ok(()) => {},
            Err(e) => {
                return Err(e);
            },
        }
        self.position = self.position + len;
        self.upkeep()
    }

    /// Takes in a `Remove` record of `len` bytes for `key` that the caller
    /// has appended to the active log: the key is gone, the record that it
    /// pointed to and the `Remove` record are stale, and the upkeep that is
    /// due is done.
    ///
    /// Fails with `KeyNotFound`, changing nothing, where the key has no
    /// mapping; the caller asks `get` before it appends anything. Fails with
    /// `Internal` as `set` does.
    pub fn remove(&mut self, key: String, len: u64) -> (done: Result<Upkeep, ErrorCode>)
        requires
            old(self).wf(),
        ensures
            final(self).wf(),
            match done {
                Ok(u) => old(self)@.index.contains_key(key@) && old(self)@.erase_fits(key@, len)
                    && old(self)@.erase(key@, len).upkeep_done(u, final(self)@),
                Err(e) => if !old(self)@.index.contains_key(key@) {
                    e == ErrorCode::KeyNotFound && final(self)@ == old(self)@
                } else if old(self)@.erase_fits(key@, len) {
                    e == ErrorCode::Internal && final(self)@ == old(self)@.erase(key@, len)
                        && final(self)@.upkeep_fails()
                } else {
                    e == ErrorCode::Internal && final(self)@ == old(self)@
                },
            },
    {
        if !self.index.contains_key(&key) {
            return Err(ErrorCode::KeyNotFound);
        }
        if len > u64::MAX - self.position {
            return Err(ErrorCode::Internal);
        }
        let ptr = Pointer { gen: self.sequence_no, pos: self.position, len };
        match self.apply(false, key, ptr) {
            Ok(()) => {},
            Err(e) => {
                return Err(e);
            },
        }
        self.position = self.position + len;
        self.upkeep()
    }
}

} // verus!
