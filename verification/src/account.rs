//! Accounting for every byte: each log is as long as the live records in it
//! and its stale bytes together.

use vstd::prelude::*;
use crate::disk::{
    appended, cleared_all_sum, coherent, compacted_disk, covers, created, moved_lookup,
    moves_follow_walk, output_bytes, outputs_hold_sources, read,
};
use crate::codec::Record;
use crate::pointer::Pointer;
use crate::replay::{Scanned, loaded, replayed, scan_from, took};
use crate::rewrite::{
    Move, Slot, lens_at, sources, sources_are_places, sources_prefix, sources_take,
};
use crate::stats::{credited_sum, distinct_gens, stale_of};
use crate::store::{Compaction, StoreView};

verus! {

/// The bytes of the live records that lie in generation `gen`.
pub open spec fn live_in(slots: Seq<Slot>, gen: u64) -> nat
    decreases slots.len(),
{
    if slots.len() == 0 {
        0
    } else {
        live_in(slots.drop_last(), gen) + share(slots.last().ptr, gen)
    }
}

/// The bytes that the record at `ptr` takes in generation `gen`.
pub open spec fn share(ptr: Pointer, gen: u64) -> nat {
    if ptr.gen == gen {
        ptr.len as nat
    } else {
        0
    }
}

/// The length of the log of `gen`; 0 where there is none.
pub open spec fn log_len(disk: Map<u64, Seq<u8>>, gen: u64) -> nat {
    if disk.contains_key(gen) {
        disk[gen].len()
    } else {
        0
    }
}

/// Every byte of every log is accounted for: the log of each generation is
/// as long as the live records in it and the stale bytes recorded for it
/// together.
pub open spec fn accounted(v: StoreView, disk: Map<u64, Seq<u8>>) -> bool {
    forall|g: u64| #[trigger] log_len(disk, g) == live_in(v.slots(), g) + stale_of(v.stale, g)
}

/// The walk lists every live key once.
pub open spec fn walk_lists(v: StoreView) -> bool {
    &&& v.walk.no_duplicates()
    &&& forall|k: Seq<char>| v.walk.contains(k) <==> #[trigger] v.index.contains_key(k)
}

proof fn live_push(slots: Seq<Slot>, x: Slot, gen: u64)
    ensures
        live_in(slots.push(x), gen) == live_in(slots, gen) + share(x.ptr, gen),
{
    assert(slots.push(x).drop_last() =~= slots);
}

proof fn live_update(slots: Seq<Slot>, i: int, x: Slot, gen: u64)
    requires
        0 <= i < slots.len(),
    ensures
        live_in(slots.update(i, x), gen) + share(slots[i].ptr, gen) == live_in(slots, gen) + share(
            x.ptr,
            gen,
        ),
    decreases slots.len(),
{
    let t = slots.update(i, x);
    if i == slots.len() - 1 {
        assert(t.drop_last() =~= slots.drop_last());
    } else {
        assert(t.drop_last() =~= slots.drop_last().update(i, x));
        live_update(slots.drop_last(), i, x, gen);
    }
}

proof fn live_remove(slots: Seq<Slot>, i: int, gen: u64)
    requires
        0 <= i < slots.len(),
    ensures
        live_in(slots.remove(i), gen) + share(slots[i].ptr, gen) == live_in(slots, gen),
    decreases slots.len(),
{
    let t = slots.remove(i);
    if i == slots.len() - 1 {
        assert(t =~= slots.drop_last());
    } else {
        assert(t.drop_last() =~= slots.drop_last().remove(i));
        assert(t.last() == slots.last());
        live_remove(slots.drop_last(), i, gen);
    }
}

proof fn live_same(a: Seq<Slot>, b: Seq<Slot>, gen: u64)
    requires
        a.len() == b.len(),
        forall|i: int| 0 <= i < a.len() ==> share(a[i].ptr, gen) == share(b[i].ptr, gen),
    ensures
        live_in(a, gen) == live_in(b, gen),
    decreases a.len(),
{
    if a.len() > 0 {
        assert forall|i: int| 0 <= i < a.drop_last().len() implies share(
            a.drop_last()[i].ptr,
            gen,
        ) == share(b.drop_last()[i].ptr, gen) by {
            assert(a.drop_last()[i] == a[i] && b.drop_last()[i] == b[i]);
        }
        live_same(a.drop_last(), b.drop_last(), gen);
    }
}

/// After a `Set` record for `key` at `ptr` was taken in, every byte is still
/// accounted for, where the log of the record's generation has grown by the
/// record and no other log has changed its length.
pub proof fn with_set_keeps_accounts(
    v: StoreView,
    disk: Map<u64, Seq<u8>>,
    after: Map<u64, Seq<u8>>,
    key: Seq<char>,
    p: Pointer,
)
    requires
        accounted(v, disk),
        walk_lists(v),
        distinct_gens(v.stale),
        v.set_fits(key),
        forall|g: u64| #[trigger] log_len(after, g) == log_len(disk, g) + share(p, g),
    ensures
        accounted(v.with_set(key, p), after),
        walk_lists(v.with_set(key, p)),
        distinct_gens(v.with_set(key, p).stale),
{
    let post = v.with_set(key, p);
    put_walk(v, key, p);
    if v.index.contains_key(key) {
        let old = v.index[key];
        let i = v.walk.index_of(key);
        assert(v.walk.contains(key));
        assert(0 <= i < v.walk.len() && v.walk[i] == key);
        credited_sum(v.stale, old.gen, old.len);
        assert(post.slots() =~= v.slots().update(i, Slot { key, ptr: p })) by {
            assert forall|n: int| 0 <= n < v.walk.len() implies post.slots()[n]
                == v.slots().update(i, Slot { key, ptr: p })[n] by {
                if n != i {
                    assert(v.walk[n] != v.walk[i]);
                }
            }
        }
        assert forall|g: u64| #[trigger]
            log_len(after, g) == live_in(post.slots(), g) + stale_of(post.stale, g) by {
            live_update(v.slots(), i, Slot { key, ptr: p }, g);
            assert(log_len(disk, g) == live_in(v.slots(), g) + stale_of(v.stale, g));
        }
    } else {
        assert(post.slots() =~= v.slots().push(Slot { key, ptr: p })) by {
            assert forall|n: int| 0 <= n < v.walk.len() implies post.slots()[n] == v.slots()[n] by {
                assert(v.walk.contains(v.walk[n]));
            }
        }
        assert forall|g: u64| #[trigger]
            log_len(after, g) == live_in(post.slots(), g) + stale_of(post.stale, g) by {
            live_push(v.slots(), Slot { key, ptr: p }, g);
            assert(log_len(disk, g) == live_in(v.slots(), g) + stale_of(v.stale, g));
        }
    }
}

/// After a `set` whose record was appended to the active log, every byte is
/// still accounted for.
pub proof fn set_keeps_accounts(
    v: StoreView,
    disk: Map<u64, Seq<u8>>,
    key: Seq<char>,
    bytes: Seq<u8>,
)
    requires
        accounted(v, disk),
        walk_lists(v),
        distinct_gens(v.stale),
        disk.contains_key(v.gen),
        bytes.len() <= u64::MAX,
        v.put_fits(key, bytes.len() as u64),
    ensures
        accounted(v.put(key, bytes.len() as u64), appended(disk, v.gen, bytes)),
        walk_lists(v.put(key, bytes.len() as u64)),
        distinct_gens(v.put(key, bytes.len() as u64).stale),
{
    let len = bytes.len() as u64;
    let p = v.next(len);
    let after = appended(disk, v.gen, bytes);
    assert forall|g: u64| #[trigger] log_len(after, g) == log_len(disk, g) + share(p, g) by {}
    with_set_keeps_accounts(v, disk, after, key, p);
    assert(v.put(key, len).slots() =~= v.with_set(key, p).slots());
    assert forall|g: u64| #[trigger]
        log_len(after, g) == live_in(v.put(key, len).slots(), g) + stale_of(
            v.put(key, len).stale,
            g,
        ) by {
        assert(log_len(after, g) == live_in(v.with_set(key, p).slots(), g) + stale_of(
            v.with_set(key, p).stale,
            g,
        ));
    }
}

/// A `Set` record keeps the walk a list of the live keys.
proof fn put_walk(v: StoreView, key: Seq<char>, p: Pointer)
    requires
        walk_lists(v),
    ensures
        walk_lists(v.with_set(key, p)),
{
    let post = v.with_set(key, p);
    if !v.index.contains_key(key) {
        assert forall|a: int, b: int|
            0 <= a < post.walk.len() && 0 <= b < post.walk.len() && a != b implies post.walk[a]
            != post.walk[b] by {
            if a < v.walk.len() {
                assert(v.walk.contains(v.walk[a]));
            }
            if b < v.walk.len() {
                assert(v.walk.contains(v.walk[b]));
            }
        }
        assert forall|k: Seq<char>| post.walk.contains(k) <==> #[trigger] post.index.contains_key(
            k,
        ) by {
            if post.walk.contains(k) {
                let w = post.walk.index_of(k);
                if w < v.walk.len() {
                    assert(v.walk.contains(v.walk[w]));
                }
            }
            if post.index.contains_key(k) {
                if k == key {
                    assert(post.walk[v.walk.len() as int] == k);
                } else {
                    let w = v.walk.index_of(k);
                    assert(v.walk.contains(k));
                    assert(post.walk[w] == k);
                }
            }
        }
    } else {
        assert forall|k: Seq<char>| post.walk.contains(k) <==> #[trigger] post.index.contains_key(
            k,
        ) by {
            if k == key {
                assert(v.index.contains_key(key));
            }
        }
    }
}

/// A `Remove` record keeps the walk a list of the live keys.
proof fn erase_walk(v: StoreView, key: Seq<char>, p: Pointer)
    requires
        walk_lists(v),
    ensures
        walk_lists(v.with_remove(key, p)),
{
    let post = v.with_remove(key, p);
    if v.index.contains_key(key) {
        assert(v.walk.contains(key));
        let i = v.walk.index_of(key);
        assert(0 <= i < v.walk.len() && v.walk[i] == key);
        assert forall|a: int, b: int|
            0 <= a < post.walk.len() && 0 <= b < post.walk.len() && a != b implies post.walk[a]
            != post.walk[b] by {
            let a0 = if a < i { a } else { a + 1 };
            let b0 = if b < i { b } else { b + 1 };
            assert(post.walk[a] == v.walk[a0] && post.walk[b] == v.walk[b0]);
        }
        assert forall|k: Seq<char>| post.walk.contains(k) <==> #[trigger] post.index.contains_key(
            k,
        ) by {
            if post.walk.contains(k) {
                let w = post.walk.index_of(k);
                let w0 = if w < i { w } else { w + 1 };
                assert(post.walk[w] == v.walk[w0]);
                assert(v.walk.contains(v.walk[w0]));
                assert(w0 != i);
            }
            if post.index.contains_key(k) {
                assert(v.walk.contains(k));
                let w = v.walk.index_of(k);
                assert(0 <= w < v.walk.len() && v.walk[w] == k);
                let w1 = if w < i { w } else { w - 1 };
                assert(post.walk[w1] == k);
            }
        }
    } else {
        assert forall|k: Seq<char>| post.walk.contains(k) <==> #[trigger] post.index.contains_key(
            k,
        ) by {
            if k == key {
                assert(!v.walk.contains(key));
            }
        }
    }
}

/// After a `Remove` record for `key` at `ptr` was taken in, every byte is
/// still accounted for, where the log of the record's generation has grown
/// by the record and no other log has changed its length.
pub proof fn with_remove_keeps_accounts(
    v: StoreView,
    disk: Map<u64, Seq<u8>>,
    after: Map<u64, Seq<u8>>,
    key: Seq<char>,
    p: Pointer,
)
    requires
        accounted(v, disk),
        walk_lists(v),
        distinct_gens(v.stale),
        v.remove_fits(key, p.len),
        forall|g: u64| #[trigger] log_len(after, g) == log_len(disk, g) + share(p, g),
    ensures
        accounted(v.with_remove(key, p), after),
        walk_lists(v.with_remove(key, p)),
        distinct_gens(v.with_remove(key, p).stale),
{
    let post = v.with_remove(key, p);
    erase_walk(v, key, p);
    let mid = v.stale_without(key);
    if v.index.contains_key(key) {
        let old = v.index[key];
        let i = v.walk.index_of(key);
        assert(v.walk.contains(key));
        assert(0 <= i < v.walk.len() && v.walk[i] == key);
        credited_sum(v.stale, old.gen, old.len);
        credited_sum(mid, p.gen, p.len);
        assert(post.slots() =~= v.slots().remove(i)) by {
            assert forall|n: int| 0 <= n < post.walk.len() implies post.slots()[n]
                == v.slots().remove(i)[n] by {
                let n0 = if n < i { n } else { n + 1 };
                assert(post.walk[n] == v.walk[n0]);
                assert(v.walk[n0] != v.walk[i]);
            }
        }
        assert forall|g: u64| #[trigger]
            log_len(after, g) == live_in(post.slots(), g) + stale_of(post.stale, g) by {
            live_remove(v.slots(), i, g);
            assert(log_len(disk, g) == live_in(v.slots(), g) + stale_of(v.stale, g));
        }
    } else {
        credited_sum(mid, p.gen, p.len);
        assert(post.slots() =~= v.slots()) by {
            assert forall|n: int| 0 <= n < v.walk.len() implies post.slots()[n] == v.slots()[n] by {
                assert(v.walk.contains(v.walk[n]));
            }
        }
        assert forall|g: u64| #[trigger]
            log_len(after, g) == live_in(post.slots(), g) + stale_of(post.stale, g) by {
            assert(log_len(disk, g) == live_in(v.slots(), g) + stale_of(v.stale, g));
        }
    }
}

/// After a `remove` whose record was appended to the active log, every byte
/// is still accounted for.
pub proof fn remove_keeps_accounts(
    v: StoreView,
    disk: Map<u64, Seq<u8>>,
    key: Seq<char>,
    bytes: Seq<u8>,
)
    requires
        accounted(v, disk),
        walk_lists(v),
        distinct_gens(v.stale),
        disk.contains_key(v.gen),
        bytes.len() <= u64::MAX,
        v.erase_fits(key, bytes.len() as u64),
    ensures
        accounted(v.erase(key, bytes.len() as u64), appended(disk, v.gen, bytes)),
        walk_lists(v.erase(key, bytes.len() as u64)),
        distinct_gens(v.erase(key, bytes.len() as u64).stale),
{
    let len = bytes.len() as u64;
    let p = v.next(len);
    let after = appended(disk, v.gen, bytes);
    assert forall|g: u64| #[trigger] log_len(after, g) == log_len(disk, g) + share(p, g) by {}
    with_remove_keeps_accounts(v, disk, after, key, p);
    assert(v.erase(key, len).slots() =~= v.with_remove(key, p).slots());
    assert forall|g: u64| #[trigger]
        log_len(after, g) == live_in(v.erase(key, len).slots(), g) + stale_of(
            v.erase(key, len).stale,
            g,
        ) by {
        assert(log_len(after, g) == live_in(v.with_remove(key, p).slots(), g) + stale_of(
            v.with_remove(key, p).stale,
            g,
        ));
    }
}

/// After the writer has moved to a new empty log, every byte is still
/// accounted for.
pub proof fn scroll_keeps_accounts(v: StoreView, disk: Map<u64, Seq<u8>>, step: u64)
    requires
        accounted(v, disk),
        v.gen + step <= u64::MAX,
        !disk.contains_key((v.gen + step) as u64),
    ensures
        accounted(v.scrolled(step), created(disk, (v.gen + step) as u64)),
{
    let post = v.scrolled(step);
    let after = created(disk, (v.gen + step) as u64);
    assert(post.slots() =~= v.slots());
    assert forall|g: u64| #[trigger]
        log_len(after, g) == live_in(post.slots(), g) + stale_of(post.stale, g) by {
        assert(log_len(disk, g) == live_in(v.slots(), g) + stale_of(v.stale, g));
    }
}

proof fn live_none(slots: Seq<Slot>, gen: u64)
    requires
        forall|i: int| 0 <= i < slots.len() ==> share(#[trigger] slots[i].ptr, gen) == 0,
    ensures
        live_in(slots, gen) == 0,
    decreases slots.len(),
{
    if slots.len() > 0 {
        assert forall|i: int| 0 <= i < slots.drop_last().len() implies share(
            #[trigger] slots.drop_last()[i].ptr,
            gen,
        ) == 0 by {
            assert(slots.drop_last()[i] == slots[i]);
        }
        live_none(slots.drop_last(), gen);
        assert(share(slots[slots.len() - 1].ptr, gen) == 0);
    }
}

/// Where the slot at place `i` points after the moves: where its move went,
/// if its record lay in a picked generation; else where it pointed before.
pub open spec fn rerouted(
    slots: Seq<Slot>,
    after: Seq<Slot>,
    picks: Seq<u64>,
    moves: Seq<Move>,
    i: int,
) -> bool {
    if picks.contains(slots[i].ptr.gen) {
        let j = sources(slots.take(i), picks).len() as int;
        j < moves.len() && after[i].ptr == moves[j].to
    } else {
        after[i].ptr == slots[i].ptr
    }
}

/// The live records that a compaction has put into the output `gen` fill it
/// exactly, as far as the walk has come.
proof fn outputs_account(
    slots: Seq<Slot>,
    after: Seq<Slot>,
    picks: Seq<u64>,
    moves: Seq<Move>,
    disk: Map<u64, Seq<u8>>,
    gen: u64,
    n: int,
)
    requires
        after.len() == slots.len(),
        0 <= n <= slots.len(),
        moves.len() == sources(slots, picks).len(),
        forall|j: int|
            0 <= j < moves.len() ==> covers(disk, (#[trigger] moves[j]).from) && moves[j].to.len
                == moves[j].from.len,
        forall|i: int| 0 <= i < slots.len() ==> #[trigger] rerouted(slots, after, picks, moves, i),
        forall|i: int|
            0 <= i < slots.len() && !picks.contains(slots[i].ptr.gen) ==> share(
                #[trigger] slots[i].ptr,
                gen,
            ) == 0,
    ensures
        sources(slots.take(n), picks).len() <= moves.len(),
        live_in(after.take(n), gen) == output_bytes(
            disk,
            moves.take(sources(slots.take(n), picks).len() as int),
            gen,
        ).len(),
    decreases n,
{
    sources_prefix(slots, picks, n);
    if n == 0 {
        assert(after.take(0) =~= Seq::<Slot>::empty());
        assert(slots.take(0) =~= Seq::<Slot>::empty());
        assert(moves.take(0) =~= Seq::<Move>::empty());
    } else {
        let k = n - 1;
        outputs_account(slots, after, picks, moves, disk, gen, k);
        sources_take(slots, picks, k);
        assert(after.take(n).drop_last() =~= after.take(k));
        assert(after.take(n).last() == after[k]);
        let m = sources(slots.take(k), picks).len() as int;
        assert(rerouted(slots, after, picks, moves, k));
        if picks.contains(slots[k].ptr.gen) {
            assert(moves.take(m + 1).drop_last() =~= moves.take(m));
            assert(moves.take(m + 1).last() == moves[m]);
            assert(read(disk, moves[m].from).len() == moves[m].from.len);
            assert(after[k].ptr == moves[m].to);
        } else {
            assert(share(slots[k].ptr, gen) == 0);
        }
    }
}

/// After a compaction, every byte is still accounted for: the outputs hold
/// live records only, the retired generations hold nothing, and every other
/// log is as long as before with the same stale bytes.
pub proof fn compaction_keeps_accounts(
    v: StoreView,
    disk: Map<u64, Seq<u8>>,
    live: Map<Seq<char>, Seq<char>>,
    c: Compaction,
    post: StoreView,
)
    requires
        coherent(v, disk, live),
        walk_lists(v),
        distinct_gens(v.stale),
        accounted(v, disk),
        v.compacted(c, post),
    ensures
        accounted(post, compacted_disk(disk, c, post.gen)),
        walk_lists(post),
{
    let picks = c.retired@;
    let slots = v.slots();
    let places = sources(slots, picks);
    let lens = lens_at(slots, places);
    let moves = c.plan.moves@;
    let first = c.first_output;
    let last = c.plan.last_output;
    let after = compacted_disk(disk, c, post.gen);
    let ps = post.slots();
    sources_are_places(slots, picks);
    moves_follow_walk(v, disk, live, c, post);
    moved_lookup(v.index, moves);
    assert(lens.take(lens.len() as int) =~= lens);
    assert(moves.take(moves.len() as int) =~= moves);
    outputs_hold_sources(disk, moves, first, lens, moves.len() as int);
    cleared_all_sum(v.stale, picks);
    // where each slot points after the compaction
    assert forall|n: int| 0 <= n < slots.len() implies #[trigger] rerouted(
        slots,
        ps,
        picks,
        moves,
        n,
    ) by {
        let key = v.walk[n];
        assert(v.walk.contains(key));
        assert(v.index.contains_key(key));
        assert(ps[n].ptr == post.index[key]);
        assert(slots[n].ptr == v.index[key]);
        if picks.contains(slots[n].ptr.gen) {
            let j = sources(slots.take(n), picks).len() as int;
            sources_prefix(slots, picks, n + 1);
            sources_take(slots, picks, n);
            assert(sources(slots.take(n + 1), picks) == sources(slots.take(n), picks).push(n));
            assert(sources(slots.take(n + 1), picks)[j] == n);
            assert(j < places.len());
            assert(places.take(j + 1)[j] == places[j]);
            assert(places[j] == n);
            assert(moves[j].key@ == key);
            assert(post.index[moves[j].key@] == moves[j].to);
        } else {
            assert forall|j: int| 0 <= j < moves.len() implies moves[j].key@ != key by {
                if moves[j].key@ == key {
                    assert(v.walk[places[j]] == v.walk[n]);
                    assert(places[j] == n);
                    assert(moves[j].from == slots[n].ptr);
                }
            }
            assert(crate::store::moved(v.index, moves).contains_key(key) <==> v.index.contains_key(
                key,
            ));
            assert(post.index[key] == v.index[key]);
        }
    }
    assert forall|k: Seq<char>| post.walk.contains(k) <==> #[trigger] post.index.contains_key(
        k,
    ) by {
        if exists|j: int| 0 <= j < moves.len() && moves[j].key@ == k {
            let j = choose|j: int| 0 <= j < moves.len() && moves[j].key@ == k;
            assert(post.index.contains_key(moves[j].key@));
            assert(v.index.contains_key(moves[j].key@));
        }
    }
    // every pointer of the old index lies in a log, none later than the active one
    assert forall|n: int| 0 <= n < slots.len() implies (#[trigger] slots[n]).ptr.gen <= v.gen by {
        assert(v.walk.contains(v.walk[n]));
        assert(v.index.contains_key(v.walk[n]));
        assert(covers(disk, v.index[v.walk[n]]));
    }
    assert forall|g: u64| #[trigger]
        log_len(after, g) == live_in(ps, g) + stale_of(post.stale, g) by {
        assert(log_len(disk, g) == live_in(slots, g) + stale_of(v.stale, g));
        if first <= g <= last {
            outputs_account(slots, ps, picks, moves, disk, g, slots.len() as int);
            assert(slots.take(slots.len() as int) =~= slots);
            assert(ps.take(slots.len() as int) =~= ps);
            assert(!picks.contains(g));
        } else {
            // no moved record went to this generation
            assert forall|i: int| 0 <= i < slots.len() implies share(
                (#[trigger] ps[i]).ptr,
                g,
            ) == (if picks.contains(g) {
                0
            } else {
                share(slots[i].ptr, g)
            }) by {
                assert(slots[i].ptr.gen <= v.gen);
                assert(rerouted(slots, ps, picks, moves, i));
                if picks.contains(slots[i].ptr.gen) {
                    let j = sources(slots.take(i), picks).len() as int;
                    assert(first <= moves[j].to.gen <= last);
                }
            }
            if picks.contains(g) {
                live_none(ps, g);
            } else {
                live_same(ps, slots, g);
            }
        }
    }
}

/// The records that a scan finds tile the log: the first starts where the
/// scan starts, each next one where the one before ends, none is empty or
/// passes the end of the log, and a scan that reached the end has covered
/// the log to its last byte.
pub proof fn scan_tiles(bytes: Seq<u8>, at: nat)
    requires
        at <= bytes.len(),
    ensures
        forall|i: int|
            0 <= i < scan_from(bytes, at).0.len() ==> {
                let r = #[trigger] scan_from(bytes, at).0[i];
                &&& r.len > 0
                &&& r.pos + r.len <= bytes.len()
                &&& r.pos == end_of(scan_from(bytes, at).0, at, i)
            },
        scan_from(bytes, at).1 ==> end_of(
            scan_from(bytes, at).0,
            at,
            scan_from(bytes, at).0.len() as int,
        ) == bytes.len(),
    decreases bytes.len() - at,
{
    if at < bytes.len() {
        match crate::codec::parse_record(bytes.skip(at as int)) {
            None => {},
            Some((record, len)) => {
                if !(len == 0 || at + len > bytes.len()) {
                    scan_tiles(bytes, at + len);
                    let rest = scan_from(bytes, at + len).0;
                    let all = scan_from(bytes, at).0;
                    assert(all == seq![Scanned { record, pos: at, len }] + rest);
                    assert forall|i: int| 0 <= i < all.len() implies {
                        let r = #[trigger] all[i];
                        &&& r.len > 0
                        &&& r.pos + r.len <= bytes.len()
                        &&& r.pos == end_of(all, at, i)
                    } by {
                        if i > 0 {
                            assert(all[i] == rest[i - 1]);
                            if i > 1 {
                                assert(all[i - 1] == rest[i - 2]);
                            }
                        }
                    }
                    if rest.len() > 0 {
                        assert(all[all.len() - 1] == rest[rest.len() - 1]);
                    }
                }
            },
        }
    }
}

/// Where the first `n` of the records `recs`, which start at `at`, end.
pub open spec fn end_of(recs: Seq<Scanned>, at: nat, n: int) -> nat {
    if n <= 0 || n > recs.len() {
        at
    } else {
        recs[n - 1].pos + recs[n - 1].len
    }
}

/// Taking in the first `n` records of a log accounts for the log as far as
/// those records reach.
proof fn replay_accounts(
    v: StoreView,
    disk: Map<u64, Seq<u8>>,
    gen: u64,
    bytes: Seq<u8>,
    recs: Seq<Scanned>,
    n: int,
)
    requires
        accounted(v, disk),
        walk_lists(v),
        distinct_gens(v.stale),
        !disk.contains_key(gen),
        bytes.len() <= u64::MAX,
        0 <= n <= recs.len(),
        forall|i: int|
            0 <= i < recs.len() ==> {
                let r = #[trigger] recs[i];
                &&& r.len > 0
                &&& r.pos + r.len <= bytes.len()
                &&& r.pos == end_of(recs, 0, i)
            },
        replayed(v, gen, recs.take(n)).is_ok(),
    ensures
        accounted(
            replayed(v, gen, recs.take(n)).unwrap(),
            disk.insert(gen, bytes.take(end_of(recs, 0, n) as int)),
        ),
        walk_lists(replayed(v, gen, recs.take(n)).unwrap()),
        distinct_gens(replayed(v, gen, recs.take(n)).unwrap().stale),
    decreases n,
{
    if n == 0 {
        assert(recs.take(0) =~= Seq::<Scanned>::empty());
        let first = disk.insert(gen, bytes.take(0));
        assert forall|g: u64| #[trigger]
            log_len(first, g) == live_in(v.slots(), g) + stale_of(v.stale, g) by {
            assert(log_len(disk, g) == live_in(v.slots(), g) + stale_of(v.stale, g));
        }
    } else {
        let k = n - 1;
        assert(recs.take(n).drop_last() =~= recs.take(k));
        assert(recs.take(n).last() == recs[k]);
        replay_accounts(v, disk, gen, bytes, recs, k);
        let w = replayed(v, gen, recs.take(k)).unwrap();
        let r = recs[k];
        let p = Pointer { gen, pos: r.pos as u64, len: r.len as u64 };
        let before = disk.insert(gen, bytes.take(end_of(recs, 0, k) as int));
        let after = disk.insert(gen, bytes.take(end_of(recs, 0, n) as int));
        assert(took(w, gen, r).is_ok());
        assert(r.pos == end_of(recs, 0, k));
        assert forall|g: u64| #[trigger] log_len(after, g) == log_len(before, g) + share(p, g) by {}
        match r.record {
            Record::SetCommand { key, value } => {
                with_set_keeps_accounts(w, before, after, key, p);
            },
            Record::RmCommand { key } => {
                with_remove_keeps_accounts(w, before, after, key, p);
            },
        }
    }
}

/// After a log that consists of records was replayed, every byte of it is
/// accounted for: each record in it is either the live record of its key or
/// counted among the stale bytes.
pub proof fn load_keeps_accounts(v: StoreView, disk: Map<u64, Seq<u8>>, gen: u64, bytes: Seq<u8>)
    requires
        accounted(v, disk),
        walk_lists(v),
        distinct_gens(v.stale),
        !disk.contains_key(gen),
        bytes.len() <= u64::MAX,
        loaded(v, gen, bytes).is_ok(),
    ensures
        accounted(loaded(v, gen, bytes).unwrap(), disk.insert(gen, bytes)),
        walk_lists(loaded(v, gen, bytes).unwrap()),
        distinct_gens(loaded(v, gen, bytes).unwrap().stale),
{
    let recs = scan_from(bytes, 0).0;
    scan_tiles(bytes, 0);
    assert(recs.take(recs.len() as int) =~= recs);
    replay_accounts(v, disk, gen, bytes, recs, recs.len() as int);
    assert(bytes.take(bytes.len() as int) =~= bytes);
}

} // verus!
