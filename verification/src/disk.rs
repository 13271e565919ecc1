//! The files as the store's caller keeps them, as a mathematical model, and
//! what holds between them and the store after every operation.
//!
//! A disk maps the generation of each log to the log's bytes. The laws here
//! say that the store and a disk on which its caller has done what the store
//! told it stay coherent: every index entry covers exactly the record of the
//! key's latest value.

use vstd::prelude::*;
use crate::codec::{Record, record_bytes};
use crate::pointer::Pointer;
use crate::rewrite::{Move, cursor, lens_at, placed, sources, sources_are_places, step};
use crate::select::{COMPACTED_ONCE_BYTES, is_selection, picked_sum};
use crate::stats::{GenStale, cleared, cleared_sum, credited, distinct_gens, slot_of, slot_of_finds, stale_of, sum};
use crate::store::{Compaction, StoreView, cleared_all, moved};

verus! {

/// The bytes that `ptr` covers on `disk`.
pub open spec fn read(disk: Map<u64, Seq<u8>>, ptr: Pointer) -> Seq<u8> {
    disk[ptr.gen].subrange(ptr.pos as int, ptr.end())
}

/// Whether the range of `ptr` lies within a log of `disk`.
pub open spec fn covers(disk: Map<u64, Seq<u8>>, ptr: Pointer) -> bool {
    disk.contains_key(ptr.gen) && ptr.end() <= disk[ptr.gen].len()
}

/// `disk` after `bytes` were appended to the log of `gen`.
pub open spec fn appended(disk: Map<u64, Seq<u8>>, gen: u64, bytes: Seq<u8>) -> Map<u64, Seq<u8>> {
    disk.insert(gen, disk[gen] + bytes)
}

/// `disk` after the empty log of `gen` was created.
pub open spec fn created(disk: Map<u64, Seq<u8>>, gen: u64) -> Map<u64, Seq<u8>> {
    disk.insert(gen, Seq::empty())
}

/// The store `v`, the files `disk` and the live mapping `live` agree: the
/// index has exactly the live keys; each entry covers exactly the `Set`
/// record of its key with the key's live value; the active log exists and
/// has the length that the store holds; no log is of a later generation
/// than the active one; and every generation with stale bytes has its log.
pub open spec fn coherent(
    v: StoreView,
    disk: Map<u64, Seq<u8>>,
    live: Map<Seq<char>, Seq<char>>,
) -> bool {
    &&& forall|k: Seq<char>| v.index.contains_key(k) <==> live.contains_key(k)
    &&& forall|k: Seq<char>| #[trigger]
        v.index.contains_key(k) ==> covers(disk, v.index[k]) && record_bytes(
            Record::SetCommand { key: k, value: live[k] },
        ) == Some(read(disk, v.index[k]))
    &&& disk.contains_key(v.gen)
    &&& disk[v.gen].len() == v.pos
    &&& forall|g: u64| disk.contains_key(g) ==> g <= v.gen
    &&& forall|i: int| 0 <= i < v.stale.len() ==> disk.contains_key(#[trigger] v.stale[i].gen)
}

/// Every generation that `credited` records was recorded before or is the
/// one credited.
pub proof fn credited_gens(s: Seq<GenStale>, gen: u64, bytes: u64)
    ensures
        forall|i: int|
            0 <= i < credited(s, gen, bytes).len() ==> #[trigger] credited(s, gen, bytes)[i].gen
                == gen || exists|j: int|
                0 <= j < s.len() && s[j].gen == credited(s, gen, bytes)[i].gen,
{
    slot_of_finds(s, gen);
    let t = credited(s, gen, bytes);
    assert forall|i: int| 0 <= i < t.len() implies #[trigger] t[i].gen == gen || exists|j: int|
        0 <= j < s.len() && s[j].gen == t[i].gen by {
        if t[i].gen != gen {
            assert(s[i].gen == t[i].gen);
        }
    }
}

/// Every generation that is left after clearing `picks` was recorded before
/// and is none of `picks`.
pub proof fn cleared_all_gens(s: Seq<GenStale>, picks: Seq<u64>)
    requires
        distinct_gens(s),
    ensures
        distinct_gens(cleared_all(s, picks)),
        forall|i: int|
            0 <= i < cleared_all(s, picks).len() ==> !picks.contains(
                #[trigger] cleared_all(s, picks)[i].gen,
            ) && exists|j: int| 0 <= j < s.len() && s[j].gen == cleared_all(s, picks)[i].gen,
    decreases picks.len(),
{
    if picks.len() > 0 {
        let rest = picks.drop_last();
        let mid = cleared_all(s, rest);
        let out = cleared_all(s, picks);
        cleared_all_gens(s, rest);
        slot_of_finds(mid, picks.last());
        crate::stats::cleared_sum(mid, picks.last());
        let at = slot_of(mid, picks.last());
        assert forall|i: int| 0 <= i < out.len() implies !picks.contains(#[trigger] out[i].gen)
            && exists|j: int| 0 <= j < s.len() && s[j].gen == out[i].gen by {
            let i0 = if at < 0 || i < at { i } else { i + 1 };
            assert(out[i] == mid[i0]);
            assert(!rest.contains(mid[i0].gen));
            if picks.contains(out[i].gen) {
                let w = picks.index_of(out[i].gen);
                if w < rest.len() {
                    assert(rest[w] == out[i].gen);
                } else {
                    assert(out[i].gen == picks.last());
                    if at >= 0 {
                        assert(mid[at].gen == mid[i0].gen);
                    }
                }
            }
        }
    }
}

/// A store without keys whose active log is empty agrees with a directory
/// that holds that log alone.
pub proof fn fresh_is_coherent(gen: u64)
    ensures
        coherent(
            StoreView {
                gen,
                pos: 0,
                index: Map::empty(),
                walk: Seq::empty(),
                stale: Seq::empty(),
            },
            created(Map::empty(), gen),
            Map::empty(),
        ),
{
}

/// After a `set`, the key's entry covers the record just written, every
/// other key is as it was, and store and files still agree.
pub proof fn set_keeps_coherent(
    v: StoreView,
    disk: Map<u64, Seq<u8>>,
    live: Map<Seq<char>, Seq<char>>,
    key: Seq<char>,
    value: Seq<char>,
    bytes: Seq<u8>,
)
    requires
        coherent(v, disk, live),
        record_bytes(Record::SetCommand { key, value }) == Some(bytes),
        bytes.len() <= u64::MAX,
        v.pos + bytes.len() <= u64::MAX,
    ensures
        coherent(
            v.put(key, bytes.len() as u64),
            appended(disk, v.gen, bytes),
            live.insert(key, value),
        ),
        v.put(key, bytes.len() as u64).index.contains_key(key),
        read(appended(disk, v.gen, bytes), v.put(key, bytes.len() as u64).index[key]) == bytes,
        forall|k: Seq<char>|
            k != key && v.index.contains_key(k) ==> #[trigger] v.put(
                key,
                bytes.len() as u64,
            ).index[k] == v.index[k] && read(appended(disk, v.gen, bytes), v.index[k]) == read(
                disk,
                v.index[k],
            ),
{
    let len = bytes.len() as u64;
    let post = v.put(key, len);
    let after = appended(disk, v.gen, bytes);
    assert(read(after, post.index[key]) =~= bytes);
    if v.index.contains_key(key) {
        credited_gens(v.stale, v.index[key].gen, v.index[key].len);
    }
    assert forall|k: Seq<char>| k != key && v.index.contains_key(k) implies read(
        after,
        v.index[k],
    ) == read(disk, v.index[k]) by {
        assert(read(after, v.index[k]) =~= read(disk, v.index[k]));
    }
}

/// After a `remove`, the key has no entry, every other key is as it was,
/// and store and files still agree.
pub proof fn remove_keeps_coherent(
    v: StoreView,
    disk: Map<u64, Seq<u8>>,
    live: Map<Seq<char>, Seq<char>>,
    key: Seq<char>,
    bytes: Seq<u8>,
)
    requires
        coherent(v, disk, live),
        bytes.len() <= u64::MAX,
        v.pos + bytes.len() <= u64::MAX,
    ensures
        coherent(v.erase(key, bytes.len() as u64), appended(disk, v.gen, bytes), live.remove(key)),
        !v.erase(key, bytes.len() as u64).index.contains_key(key),
        forall|k: Seq<char>|
            k != key && v.index.contains_key(k) ==> #[trigger] v.erase(
                key,
                bytes.len() as u64,
            ).index[k] == v.index[k] && read(appended(disk, v.gen, bytes), v.index[k]) == read(
                disk,
                v.index[k],
            ),
{
    let after = appended(disk, v.gen, bytes);
    assert forall|k: Seq<char>| k != key && v.index.contains_key(k) implies read(
        after,
        v.index[k],
    ) == read(disk, v.index[k]) by {
        assert(read(after, v.index[k]) =~= read(disk, v.index[k]));
    }
    if v.index.contains_key(key) {
        credited_gens(v.stale, v.index[key].gen, v.index[key].len);
    }
    credited_gens(v.stale_without(key), v.gen, bytes.len() as u64);
}

/// After the writer has moved to a new empty log, store and files still
/// agree, and every entry is as it was.
pub proof fn scroll_keeps_coherent(
    v: StoreView,
    disk: Map<u64, Seq<u8>>,
    live: Map<Seq<char>, Seq<char>>,
    step: u64,
)
    requires
        coherent(v, disk, live),
        step >= 1,
        v.gen + step <= u64::MAX,
    ensures
        coherent(v.scrolled(step), created(disk, (v.gen + step) as u64), live),
{
    let after = created(disk, (v.gen + step) as u64);
    assert forall|k: Seq<char>| #[trigger] v.index.contains_key(k) implies read(
        after,
        v.index[k],
    ) == read(disk, v.index[k]) by {}
}

/// The bytes that the moves `moves` write to generation `gen`, one record
/// after the other.
pub open spec fn output_bytes(disk: Map<u64, Seq<u8>>, moves: Seq<Move>, gen: u64) -> Seq<u8>
    decreases moves.len(),
{
    if moves.len() == 0 {
        Seq::empty()
    } else if moves.last().to.gen == gen {
        output_bytes(disk, moves.drop_last(), gen) + read(disk, moves.last().from)
    } else {
        output_bytes(disk, moves.drop_last(), gen)
    }
}

/// The moves `moves` take records that `disk` holds, of the lengths `lens`,
/// each to where `cursor` points after the moves before it.
pub open spec fn laid_out(disk: Map<u64, Seq<u8>>, moves: Seq<Move>, first: u64, lens: Seq<u64>) -> bool {
    &&& moves.len() == lens.len()
    &&& forall|j: int|
        0 <= j < moves.len() ==> {
            let m = #[trigger] moves[j];
            &&& lens[j] == m.from.len
            &&& m.to.len == m.from.len
            &&& covers(disk, m.from)
            &&& cursor(first, lens.take(j)) == Some((m.to.gen, m.to.pos))
        }
}

/// After the first `n` moves of a layout were written, the output that the
/// cursor points to is as long as the cursor says, the outputs behind it are
/// empty, and every record moved so far stands in its output where its move
/// says.
pub proof fn outputs_hold_sources(
    disk: Map<u64, Seq<u8>>,
    moves: Seq<Move>,
    first: u64,
    lens: Seq<u64>,
    n: int,
)
    requires
        laid_out(disk, moves, first, lens),
        0 <= n <= moves.len(),
        cursor(first, lens.take(n)).is_some(),
    ensures
        first <= cursor(first, lens.take(n)).unwrap().0,
        output_bytes(disk, moves.take(n), cursor(first, lens.take(n)).unwrap().0).len() == cursor(
            first,
            lens.take(n),
        ).unwrap().1,
        forall|g: u64|
            g > cursor(first, lens.take(n)).unwrap().0 ==> #[trigger] output_bytes(
                disk,
                moves.take(n),
                g,
            ).len() == 0,
        forall|g: u64| g < first ==> #[trigger] output_bytes(disk, moves.take(n), g).len() == 0,
        forall|j: int|
            0 <= j < n ==> {
                let m = #[trigger] moves[j];
                &&& first <= m.to.gen <= cursor(first, lens.take(n)).unwrap().0
                &&& m.to.end() <= output_bytes(disk, moves.take(n), m.to.gen).len()
                &&& output_bytes(disk, moves.take(n), m.to.gen).subrange(
                    m.to.pos as int,
                    m.to.end(),
                ) == read(disk, m.from)
            },
    decreases n,
{
    if n == 0 {
        assert(lens.take(0) =~= Seq::<u64>::empty());
        assert(moves.take(0) =~= Seq::<Move>::empty());
    } else {
        let k = n - 1;
        assert(lens.take(n).drop_last() =~= lens.take(k));
        assert(lens.take(n).last() == lens[k]);
        assert(moves.take(n).drop_last() =~= moves.take(k));
        assert(moves.take(n).last() == moves[k]);
        let m = moves[k];
        assert(cursor(first, lens.take(k)) == Some((m.to.gen, m.to.pos)));
        outputs_hold_sources(disk, moves, first, lens, k);
        let cg = m.to.gen;
        let cp = m.to.pos;
        let src = read(disk, m.from);
        assert(src.len() == m.from.len);
        assert(cursor(first, lens.take(n)) == step(cg, cp, lens[k]));
        let before = output_bytes(disk, moves.take(k), cg);
        let after = output_bytes(disk, moves.take(n), cg);
        assert(after == before + src);
        assert(after.subrange(cp as int, cp + m.from.len) =~= src);
        assert forall|g: u64| g != cg implies #[trigger] output_bytes(disk, moves.take(n), g)
            == output_bytes(disk, moves.take(k), g) by {}
        assert forall|j: int| 0 <= j < n implies {
            let mj = #[trigger] moves[j];
            &&& first <= mj.to.gen <= cursor(first, lens.take(n)).unwrap().0
            &&& mj.to.end() <= output_bytes(disk, moves.take(n), mj.to.gen).len()
            &&& output_bytes(disk, moves.take(n), mj.to.gen).subrange(
                mj.to.pos as int,
                mj.to.end(),
            ) == read(disk, mj.from)
        } by {
            let mj = moves[j];
            if j < k {
                if mj.to.gen == cg {
                    assert(after.subrange(mj.to.pos as int, mj.to.end()) =~= before.subrange(
                        mj.to.pos as int,
                        mj.to.end(),
                    ));
                }
            }
        }
    }
}

/// The files after the compaction `c` was carried out and the log of the new
/// active generation `writer` created: the outputs hold the moved records,
/// the retired logs are gone, and every other log is as it was.
pub open spec fn compacted_disk(disk: Map<u64, Seq<u8>>, c: Compaction, writer: u64) -> Map<
    u64,
    Seq<u8>,
> {
    Map::new(
        |g: u64|
            g == writer || c.first_output <= g <= c.plan.last_output || (disk.contains_key(g)
                && !c.retired@.contains(g)),
        |g: u64|
            if c.first_output <= g <= c.plan.last_output {
                output_bytes(disk, c.plan.moves@, g)
            } else if g == writer {
                Seq::empty()
            } else {
                disk[g]
            },
    )
}

/// Where no two moves have the same key, the index after the moves maps
/// each move's key to where the move went and every other key as before.
pub proof fn moved_lookup(index: Map<Seq<char>, Pointer>, moves: Seq<Move>)
    requires
        forall|i: int, j: int| 0 <= i < j < moves.len() ==> moves[i].key@ != moves[j].key@,
    ensures
        forall|j: int|
            0 <= j < moves.len() ==> moved(index, moves).contains_key(#[trigger] moves[j].key@)
                && moved(index, moves)[moves[j].key@] == moves[j].to,
        forall|k: Seq<char>|
            (forall|j: int| 0 <= j < moves.len() ==> moves[j].key@ != k) ==> (#[trigger] moved(
                index,
                moves,
            ).contains_key(k) <==> index.contains_key(k)) && moved(index, moves)[k] == index[k],
    decreases moves.len(),
{
    if moves.len() > 0 {
        let rest = moves.drop_last();
        moved_lookup(index, rest);
        assert forall|j: int| 0 <= j < moves.len() implies moved(index, moves).contains_key(
            #[trigger] moves[j].key@,
        ) && moved(index, moves)[moves[j].key@] == moves[j].to by {
            if j < moves.len() - 1 {
                assert(rest[j] == moves[j]);
                assert(moves[j].key@ != moves.last().key@);
            }
        }
        assert forall|k: Seq<char>|
            (forall|j: int| 0 <= j < moves.len() ==> moves[j].key@ != k) implies (#[trigger] moved(
            index,
            moves,
        ).contains_key(k) <==> index.contains_key(k)) && moved(index, moves)[k] == index[k] by {
            assert forall|j: int| 0 <= j < rest.len() implies rest[j].key@ != k by {
                assert(rest[j] == moves[j]);
            }
            assert(moves.last().key@ != k);
            assert(moved(index, rest).contains_key(k) <==> index.contains_key(k));
            assert(moved(index, rest)[k] == index[k]);
        }
    }
}

/// The moves of a compaction follow the walk: each takes the record of one
/// live key that lies in a retired generation from where the index points,
/// no key is moved twice, the records and their targets form a layout, and
/// every retired generation has a log.
pub proof fn moves_follow_walk(
    v: StoreView,
    disk: Map<u64, Seq<u8>>,
    live: Map<Seq<char>, Seq<char>>,
    c: Compaction,
    post: StoreView,
)
    requires
        coherent(v, disk, live),
        v.walk.no_duplicates(),
        forall|k: Seq<char>| v.walk.contains(k) <==> #[trigger] v.index.contains_key(k),
        v.compacted(c, post),
    ensures
        c.plan.moves@.len() == sources(v.slots(), c.retired@).len(),
        forall|j: int|
            0 <= j < c.plan.moves@.len() ==> {
                let m = #[trigger] c.plan.moves@[j];
                let place = sources(v.slots(), c.retired@)[j];
                &&& 0 <= place < v.walk.len()
                &&& m.key@ == v.walk[place]
                &&& v.index.contains_key(m.key@)
                &&& m.from == v.index[m.key@]
                &&& c.retired@.contains(m.from.gen)
            },
        forall|i: int, j: int|
            0 <= i < j < c.plan.moves@.len() ==> c.plan.moves@[i].key@ != c.plan.moves@[j].key@,
        laid_out(
            disk,
            c.plan.moves@,
            c.first_output,
            lens_at(v.slots(), sources(v.slots(), c.retired@)),
        ),
        forall|g: u64| c.retired@.contains(g) ==> g <= v.gen,
{
    let picks = c.retired@;
    let slots = v.slots();
    let places = sources(slots, picks);
    let lens = lens_at(slots, places);
    let moves = c.plan.moves@;
    let first = c.first_output;
    sources_are_places(slots, picks);
    assert forall|j: int| 0 <= j < moves.len() implies {
        let m = #[trigger] moves[j];
        &&& 0 <= places[j] < v.walk.len()
        &&& m.key@ == v.walk[places[j]]
        &&& v.index.contains_key(m.key@)
        &&& m.from == v.index[m.key@]
        &&& picks.contains(m.from.gen)
        &&& lens[j] == m.from.len
        &&& m.to.len == m.from.len
        &&& covers(disk, m.from)
        &&& cursor(first, lens.take(j)) == Some((m.to.gen, m.to.pos))
    } by {
        let m = moves[j];
        assert(0 <= places[j] < slots.len());
        assert(placed(slots, places, first, m, j));
        assert(slots[places[j]].key == v.walk[places[j]]);
        assert(m.key@ == v.walk[places[j]]);
        assert(v.walk.contains(v.walk[places[j]]));
        assert(v.index.contains_key(m.key@));
        assert(m.from == v.index[m.key@]);
        assert(lens[j] == m.from.len);
        let at = cursor(first, lens.take(j));
        assert(at.is_some());
        assert(at.unwrap() == (m.to.gen, m.to.pos));
    }
    assert(laid_out(disk, moves, first, lens));
    assert forall|i: int, j: int| 0 <= i < j < moves.len() implies moves[i].key@
        != moves[j].key@ by {
        assert(placed(slots, places, first, moves[i], i));
        assert(placed(slots, places, first, moves[j], j));
        assert(places[i] < places[j]);
    }
    assert forall|g: u64| picks.contains(g) implies g <= v.gen by {
        let w = picks.index_of(g);
        assert(slot_of(v.stale, picks[w]) >= 0);
        slot_of_finds(v.stale, g);
        assert(disk.contains_key(v.stale[slot_of(v.stale, g)].gen));
    }
}

/// After a compaction, store and files still agree: every entry covers the
/// record of its key's live value, moved or not. None of the retired logs
/// exists any more.
pub proof fn compaction_keeps_coherent(
    v: StoreView,
    disk: Map<u64, Seq<u8>>,
    live: Map<Seq<char>, Seq<char>>,
    c: Compaction,
    post: StoreView,
)
    requires
        coherent(v, disk, live),
        v.walk.no_duplicates(),
        forall|k: Seq<char>| v.walk.contains(k) <==> #[trigger] v.index.contains_key(k),
        distinct_gens(v.stale),
        v.compacted(c, post),
    ensures
        coherent(post, compacted_disk(disk, c, post.gen), live),
        forall|g: u64|
            c.retired@.contains(g) ==> !#[trigger] compacted_disk(disk, c, post.gen).contains_key(
                g,
            ),
{
    let picks = c.retired@;
    let slots = v.slots();
    let places = sources(slots, picks);
    let lens = lens_at(slots, places);
    let moves = c.plan.moves@;
    let first = c.first_output;
    let last = c.plan.last_output;
    let after = compacted_disk(disk, c, post.gen);
    sources_are_places(slots, picks);
    moves_follow_walk(v, disk, live, c, post);
    moved_lookup(v.index, moves);
    assert(lens.take(lens.len() as int) =~= lens);
    assert(moves.take(moves.len() as int) =~= moves);
    outputs_hold_sources(disk, moves, first, lens, moves.len() as int);
    assert forall|k: Seq<char>| #[trigger] post.index.contains_key(k) implies covers(
        after,
        post.index[k],
    ) && record_bytes(Record::SetCommand { key: k, value: live[k] }) == Some(
        read(after, post.index[k]),
    ) && v.index.contains_key(k) by {
        if exists|j: int| 0 <= j < moves.len() && moves[j].key@ == k {
            let j = choose|j: int| 0 <= j < moves.len() && moves[j].key@ == k;
            let m = moves[j];
            assert(post.index[k] == m.to);
            assert(after[m.to.gen] == output_bytes(disk, moves, m.to.gen));
            assert(read(after, m.to) == read(disk, m.from));
        } else {
            assert(v.index.contains_key(k));
            let p = v.index[k];
            assert(post.index[k] == p);
            assert(covers(disk, p));
            if picks.contains(p.gen) {
                assert(v.walk.contains(k));
                let i = v.walk.index_of(k);
                assert(0 <= i < v.walk.len() && v.walk[i] == k);
                assert(slots[i].ptr == p);
                assert(places.contains(i));
                let j = places.index_of(i);
                assert(0 <= j < places.len() && places[j] == i);
                assert(moves[j].key@ == k);
            }
            assert(after[p.gen] == disk[p.gen]);
        }
    }
    assert forall|k: Seq<char>| v.index.contains_key(k) implies post.index.contains_key(k) by {
        if exists|j: int| 0 <= j < moves.len() && moves[j].key@ == k {
            let j = choose|j: int| 0 <= j < moves.len() && moves[j].key@ == k;
            assert(post.index.contains_key(moves[j].key@));
        }
    }
    cleared_all_gens(v.stale, picks);
    assert forall|i: int| 0 <= i < post.stale.len() implies after.contains_key(
        #[trigger] post.stale[i].gen,
    ) by {
        let j = choose|j: int| 0 <= j < v.stale.len() && v.stale[j].gen == post.stale[i].gen;
        assert(disk.contains_key(v.stale[j].gen));
    }
}

/// Clearing generations that are named once each lowers the sum by what
/// they held, and leaves the other generations what they held.
pub proof fn cleared_all_sum(s: Seq<GenStale>, picks: Seq<u64>)
    requires
        distinct_gens(s),
        picks.no_duplicates(),
    ensures
        distinct_gens(cleared_all(s, picks)),
        sum(cleared_all(s, picks)) + picked_sum(s, picks) == sum(s),
        forall|g: u64|
            stale_of(#[trigger] cleared_all(s, picks), g) == (if picks.contains(g) {
                0
            } else {
                stale_of(s, g)
            }),
    decreases picks.len(),
{
    if picks.len() > 0 {
        let rest = picks.drop_last();
        let last = picks.last();
        let mid = cleared_all(s, rest);
        cleared_all_sum(s, rest);
        cleared_sum(mid, last);
        assert(!rest.contains(last)) by {
            if rest.contains(last) {
                let w = rest.index_of(last);
                assert(picks[w] == picks[picks.len() - 1]);
            }
        }
        assert(stale_of(mid, last) == stale_of(s, last));
        assert forall|g: u64|
            stale_of(cleared_all(s, picks), g) == (if picks.contains(g) {
                0
            } else {
                stale_of(s, g)
            }) by {
            if g == last {
                assert(picks[picks.len() - 1] == g);
            } else {
                assert(stale_of(cleared_all(s, picks), g) == stale_of(mid, g));
                if rest.contains(g) {
                    let w = rest.index_of(g);
                    assert(picks[w] == g);
                }
                if picks.contains(g) {
                    let w = picks.index_of(g);
                    assert(rest[w] == g);
                }
            }
        }
    }
}

/// A compaction reclaims what it says: the stale bytes fall by the bytes
/// that the retired generations held, which are at least
/// `COMPACTED_ONCE_BYTES` unless no stale byte is left at all. The retired
/// generations hold no stale bytes afterwards; the others hold what they
/// held.
pub proof fn compaction_reclaims(v: StoreView, c: Compaction, post: StoreView)
    requires
        distinct_gens(v.stale),
        v.compacted(c, post),
    ensures
        sum(post.stale) + c.reclaimed == sum(v.stale),
        c.reclaimed >= COMPACTED_ONCE_BYTES || sum(post.stale) == 0,
        forall|g: u64|
            stale_of(post.stale, g) == (if c.retired@.contains(g) {
                0
            } else {
                #[trigger] stale_of(v.stale, g)
            }),
{
    let picks = c.retired@;
    cleared_all_sum(v.stale, picks);
    if c.reclaimed < COMPACTED_ONCE_BYTES {
        // every generation was retired
        assert(picks.len() == v.stale.len());
        cleared_all_gens(v.stale, picks);
        if post.stale.len() > 0 {
            let g = post.stale[0].gen;
            assert(!picks.contains(g));
            let j = choose|j: int| 0 <= j < v.stale.len() && v.stale[j].gen == g;
            all_picked(v.stale, picks, j);
        }
        assert(post.stale =~= Seq::<GenStale>::empty());
    }
}

/// Where as many generations are picked as are recorded, each recorded one
/// once, every recorded generation is picked.
proof fn all_picked(s: Seq<GenStale>, picks: Seq<u64>, j: int)
    requires
        distinct_gens(s),
        picks.no_duplicates(),
        picks.len() == s.len(),
        forall|i: int| 0 <= i < picks.len() ==> slot_of(s, #[trigger] picks[i]) >= 0,
        0 <= j < s.len(),
    ensures
        picks.contains(s[j].gen),
{
    // the slots of the picks are distinct places of `s`, as many as `s` has
    let slots = Seq::new(picks.len(), |i: int| slot_of(s, picks[i]));
    assert forall|i: int| 0 <= i < slots.len() implies 0 <= #[trigger] slots[i] < s.len()
        && s[slots[i]].gen == picks[i] by {
        slot_of_finds(s, picks[i]);
    }
    assert(slots.no_duplicates()) by {
        assert forall|a: int, b: int|
            0 <= a < slots.len() && 0 <= b < slots.len() && a != b implies slots[a]
            != slots[b] by {
            assert(s[slots[a]].gen == picks[a]);
            assert(s[slots[b]].gen == picks[b]);
        }
    }
    covers_all(slots, s.len() as int, j);
    let w = slots.index_of(j);
    assert(slots[w] == j);
    assert(picks[w] == s[j].gen);
}

/// As many distinct numbers below `n` as `n` leave none out.
proof fn covers_all(slots: Seq<int>, n: int, j: int)
    requires
        slots.no_duplicates(),
        slots.len() == n,
        forall|i: int| 0 <= i < slots.len() ==> 0 <= #[trigger] slots[i] < n,
        0 <= j < n,
    ensures
        slots.contains(j),
{
    let held = slots.to_set();
    let below = Set::new(|x: int| 0 <= x < n);
    slots.unique_seq_to_set();
    vstd::set_lib::lemma_int_range(0, n);
    assert(below =~= vstd::set_lib::set_int_range(0, n));
    assert(held.subset_of(below)) by {
        assert forall|x: int| held.contains(x) implies below.contains(x) by {
            let w = slots.index_of(x);
            assert(slots[w] == x);
        }
    }
    if !slots.contains(j) {
        let smaller = below.remove(j);
        assert(held.subset_of(smaller));
        vstd::set_lib::lemma_len_subset(held, smaller);
    }
}

} // verus!
