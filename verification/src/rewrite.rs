//! Laying out a compaction: where each live record of a retired generation
//! goes in the new generations.

use vstd::prelude::*;
use crate::error::ErrorCode;
use crate::index::Entry;
use crate::pointer::Pointer;

verus! {

/// A log is closed once its length has reached this many bytes.
pub const FILE_THRESHOLD: u64 = 32 * 1024;

/// One record to copy: the bytes at `from` go to `to`, and `key` then lives
/// at `to`.
#[derive(Debug)]
pub struct Move {
    pub key: String,
    pub from: Pointer,
    pub to: Pointer,
}

/// The copies of one compaction, in the order in which they are written, and
/// the last generation that they write to. The outputs are the generations
/// from the first one handed to `plan` up to `last_output`; the last of them
/// may stay empty.
#[derive(Debug)]
pub struct Plan {
    pub moves: Vec<Move>,
    pub last_output: u64,
}

/// One live key and the place of its record, as a mathematical value.
pub struct Slot {
    pub key: Seq<char>,
    pub ptr: Pointer,
}

/// The keys and pointers of `pairs`, in their order.
pub open spec fn slots_of(pairs: Seq<Entry>) -> Seq<Slot> {
    Seq::new(pairs.len(), |i: int| Slot { key: pairs[i].key@, ptr: pairs[i].ptr })
}

/// Where the next record goes after one of `len` bytes was written at byte
/// `pos` of generation `gen`: behind it, or at the start of the next
/// generation once the threshold is reached. `None` where a number would pass
/// 64 bits.
pub open spec fn step(gen: u64, pos: u64, len: u64) -> Option<(u64, u64)> {
    if pos + len > u64::MAX {
        None
    } else if pos + len >= FILE_THRESHOLD {
        if gen == u64::MAX {
            None
        } else {
            Some(((gen + 1) as u64, 0u64))
        }
    } else {
        Some((gen, (pos + len) as u64))
    }
}

/// Where the next record goes after records of the lengths `lens` were
/// written one after the other, starting with an empty generation `first`.
pub open spec fn cursor(first: u64, lens: Seq<u64>) -> Option<(u64, u64)>
    decreases lens.len(),
{
    if lens.len() == 0 {
        Some((first, 0u64))
    } else {
        match cursor(first, lens.drop_last()) {
            None => None,
            Some((gen, pos)) => step(gen, pos, lens.last()),
        }
    }
}

/// The places in `pairs` of the records that lie in one of the generations
/// `picks`, in rising order.
pub open spec fn sources(pairs: Seq<Slot>, picks: Seq<u64>) -> Seq<int>
    decreases pairs.len(),
{
    if pairs.len() == 0 {
        Seq::empty()
    } else if picks.contains(pairs.last().ptr.gen) {
        sources(pairs.drop_last(), picks).push(pairs.len() - 1)
    } else {
        sources(pairs.drop_last(), picks)
    }
}

/// The lengths of the records at the places `places` of `pairs`.
pub open spec fn lens_at(pairs: Seq<Slot>, places: Seq<int>) -> Seq<u64> {
    Seq::new(places.len(), |j: int| pairs[places[j]].ptr.len)
}

/// The move `m` takes the record at place `places[j]` of `pairs` to where
/// `cursor` points after the records at the places before it.
pub open spec fn placed(pairs: Seq<Slot>, places: Seq<int>, first: u64, m: Move, j: int) -> bool {
    let at = cursor(first, lens_at(pairs, places).take(j));
    &&& m.key@ == pairs[places[j]].key
    &&& m.from == pairs[places[j]].ptr
    &&& at.is_some()
    &&& m.to == (Pointer { gen: at.unwrap().0, pos: at.unwrap().1, len: m.from.len })
}

/// `plan` lays out the records of `pairs` that lie in the generations
/// `picks`: one move per such record, in the order of `pairs`, each to the
/// place that `cursor` gives after the moves before it.
pub open spec fn is_plan(pairs: Seq<Slot>, picks: Seq<u64>, first: u64, plan: Plan) -> bool {
    let places = sources(pairs, picks);
    let lens = lens_at(pairs, places);
    &&& plan.moves@.len() == places.len()
    &&& cursor(first, lens).is_some()
    &&& plan.last_output == cursor(first, lens).unwrap().0
    &&& forall|j: int|
        0 <= j < places.len() ==> placed(pairs, places, first, #[trigger] plan.moves@[j], j)
}

/// The places that `sources` gives are places of `pairs`, rise strictly, and
/// are exactly those whose record lies in a picked generation.
pub proof fn sources_are_places(pairs: Seq<Slot>, picks: Seq<u64>)
    ensures
        forall|j: int|
            0 <= j < sources(pairs, picks).len() ==> 0 <= #[trigger] sources(pairs, picks)[j]
                < pairs.len() && picks.contains(pairs[sources(pairs, picks)[j]].ptr.gen),
        forall|i: int, j: int|
            0 <= i < j < sources(pairs, picks).len() ==> sources(pairs, picks)[i] < sources(
                pairs,
                picks,
            )[j],
        forall|k: int|
            0 <= k < pairs.len() && picks.contains(#[trigger] pairs[k].ptr.gen) ==> sources(
                pairs,
                picks,
            ).contains(k),
    decreases pairs.len(),
{
    if pairs.len() > 0 {
        let rest = pairs.drop_last();
        sources_are_places(rest, picks);
        let s0 = sources(rest, picks);
        let s1 = sources(pairs, picks);
        assert forall|j: int| 0 <= j < s1.len() implies 0 <= #[trigger] s1[j] < pairs.len()
            && picks.contains(pairs[s1[j]].ptr.gen) by {
            if j < s0.len() {
                assert(s1[j] == s0[j]);
                assert(rest[s0[j]] == pairs[s0[j]]);
            }
        }
        assert forall|i: int, j: int| 0 <= i < j < s1.len() implies s1[i] < s1[j] by {
            assert(s1[i] == s0[i]);
            if j < s0.len() {
                assert(s1[j] == s0[j]);
            }
        }
        assert forall|k: int|
            0 <= k < pairs.len() && picks.contains(#[trigger] pairs[k].ptr.gen) implies s1.contains(
            k,
        ) by {
            if k < pairs.len() - 1 {
                assert(rest[k] == pairs[k]);
                assert(s0.contains(k));
                let w = s0.index_of(k);
                assert(0 <= w < s0.len() && s0[w] == k);
                assert(s1[w] == k);
            } else {
                assert(s1[s1.len() - 1] == k);
            }
        }
    }
}

/// Once the layout fails on some records, it fails on any longer list.
pub proof fn cursor_fails_on(first: u64, a: Seq<u64>, b: Seq<u64>)
    requires
        cursor(first, a).is_none(),
    ensures
        cursor(first, a + b).is_none(),
    decreases b.len(),
{
    if b.len() == 0 {
        assert(a + b =~= a);
    } else {
        assert((a + b).drop_last() =~= a + b.drop_last());
        cursor_fails_on(first, a, b.drop_last());
    }
}

/// Whether `gen` is one of `gens`.
pub fn contains_gen(gens: &Vec<u64>, gen: u64) -> (found: bool)
    ensures
        found == gens@.contains(gen),
{
    let mut i: usize = 0;
    while i < gens.len()
        invariant
            i <= gens@.len(),
            forall|j: int| 0 <= j < i ==> gens@[j] != gen,
        decreases gens@.len() - i,
    {
        if gens[i] == gen {
            return true;
        }
        i += 1;
    }
    false
}

/// Walking one record further adds its place to the sources where it lies in
/// a picked generation, and nothing else.
pub proof fn sources_take(pairs: Seq<Slot>, picks: Seq<u64>, i: int)
    requires
        0 <= i < pairs.len(),
    ensures
        sources(pairs.take(i + 1), picks) == (if picks.contains(pairs[i].ptr.gen) {
            sources(pairs.take(i), picks).push(i)
        } else {
            sources(pairs.take(i), picks)
        }),
        lens_at(pairs, sources(pairs.take(i + 1), picks)) == (if picks.contains(
            pairs[i].ptr.gen,
        ) {
            lens_at(pairs, sources(pairs.take(i), picks)).push(pairs[i].ptr.len)
        } else {
            lens_at(pairs, sources(pairs.take(i), picks))
        }),
{
    assert(pairs.take(i + 1).drop_last() =~= pairs.take(i));
    assert(pairs.take(i + 1).last() == pairs[i]);
    if picks.contains(pairs[i].ptr.gen) {
        assert(lens_at(pairs, sources(pairs.take(i + 1), picks)) =~= lens_at(
            pairs,
            sources(pairs.take(i), picks),
        ).push(pairs[i].ptr.len));
    }
}

/// Lays out the copies of a compaction that retires the generations `picks`
/// and writes to new generations starting at `first`. Every record of `pairs`
/// that lies in a picked generation is moved once, in the order of `pairs`;
/// the moved records follow one another, and an output that has reached
/// `FILE_THRESHOLD` is closed and the next begun. Fails with `Internal`
/// where a position or a generation would pass 64 bits.
pub fn plan(pairs: &Vec<Entry>, picks: &Vec<u64>, first: u64) -> (laid: Result<Plan, ErrorCode>)
    ensures
        match laid {
            Ok(plan) => is_plan(slots_of(pairs@), picks@, first, plan),
            Err(e) => e == ErrorCode::Internal && cursor(
                first,
                lens_at(slots_of(pairs@), sources(slots_of(pairs@), picks@)),
            ).is_none(),
        },
{
    let ghost slots = slots_of(pairs@);
    let mut moves: Vec<Move> = Vec::new();
    let mut gen: u64 = first;
    let mut pos: u64 = 0;
    let mut i: usize = 0;
    while i < pairs.len()
        invariant
            slots == slots_of(pairs@),
            i <= pairs@.len(),
            moves@.len() == sources(slots.take(i as int), picks@).len(),
            cursor(first, lens_at(slots, sources(slots.take(i as int), picks@))) == Some(
                (gen, pos),
            ),
            forall|j: int|
                0 <= j < moves@.len() ==> placed(
                    slots,
                    sources(slots.take(i as int), picks@),
                    first,
                    #[trigger] moves@[j],
                    j,
                ),
        decreases pairs@.len() - i,
    {
        let ghost places = sources(slots.take(i as int), picks@);
        let ghost lens = lens_at(slots, places);
        let ghost next_places = sources(slots.take(i + 1), picks@);
        let ghost next_lens = lens_at(slots, next_places);
        proof {
            sources_take(slots, picks@, i as int);
        }
        let from = pairs[i].ptr;
        if contains_gen(picks, from.gen) {
            proof {
                assert(next_lens.drop_last() =~= lens);
                assert(next_lens.last() == from.len);
                assert(cursor(first, next_lens) == step(gen, pos, from.len));
            }
            let fails = from.len > u64::MAX - pos || (from.len >= FILE_THRESHOLD - pos && gen
                == u64::MAX && pos <= FILE_THRESHOLD) || (pos > FILE_THRESHOLD && gen
                == u64::MAX);
            if fails {
                proof {
                    assert(step(gen, pos, from.len).is_none());
                    let all = sources(slots, picks@);
                    sources_prefix(slots, picks@, i + 1);
                    let tail = lens_at(slots, all).skip(next_lens.len() as int);
                    assert(lens_at(slots, all) =~= next_lens + tail);
                    cursor_fails_on(first, next_lens, tail);
                }
                return Err(ErrorCode::Internal);
            }
            let to = Pointer { gen, pos, len: from.len };
            let ghost old_moves = moves@;
            moves.push(Move { key: pairs[i].key.clone(), from, to });
            if pos + from.len >= FILE_THRESHOLD {
                gen = gen + 1;
                pos = 0;
            } else {
                pos = pos + from.len;
            }
            proof {
                assert forall|j: int| 0 <= j < moves@.len() implies placed(
                    slots,
                    next_places,
                    first,
                    #[trigger] moves@[j],
                    j,
                ) by {
                    if j < places.len() {
                        assert(placed(slots, places, first, old_moves[j], j));
                        assert(moves@[j] == old_moves[j]);
                        assert(next_lens.take(j) =~= lens.take(j));
                        assert(next_places[j] == places[j]);
                    } else {
                        assert(next_lens.take(j) =~= lens);
                        assert(next_places[j] == i as int);
                    }
                }
            }
        } else {
            proof {
                assert(next_places == places);
                assert(next_lens == lens);
            }
        }
        i += 1;
        proof {
            assert(sources(slots.take(i as int), picks@) == next_places);
        }
    }
    proof {
        assert(slots.take(slots.len() as int) =~= slots);
    }
    Ok(Plan { moves, last_output: gen })
}

/// The sources of a prefix of the walk are a prefix of the sources of the
/// whole walk, and so are their lengths.
pub proof fn sources_prefix(pairs: Seq<Slot>, picks: Seq<u64>, i: int)
    requires
        0 <= i <= pairs.len(),
    ensures
        sources(pairs.take(i), picks).len() <= sources(pairs, picks).len(),
        sources(pairs.take(i), picks) == sources(pairs, picks).take(
            sources(pairs.take(i), picks).len() as int,
        ),
        lens_at(pairs, sources(pairs.take(i), picks)) == lens_at(pairs, sources(pairs, picks)).take(
            sources(pairs.take(i), picks).len() as int,
        ),
    decreases pairs.len() - i,
{
    if i == pairs.len() {
        assert(pairs.take(i) =~= pairs);
        assert(sources(pairs, picks).take(sources(pairs, picks).len() as int) =~= sources(
            pairs,
            picks,
        ));
    } else {
        sources_prefix(pairs, picks, i + 1);
        sources_take(pairs, picks, i);
        let a = sources(pairs.take(i), picks);
        let b = sources(pairs.take(i + 1), picks);
        let all = sources(pairs, picks);
        assert(a =~= all.take(a.len() as int));
    }
    assert(lens_at(pairs, sources(pairs.take(i), picks)) =~= lens_at(
        pairs,
        sources(pairs, picks),
    ).take(sources(pairs.take(i), picks).len() as int));
}

} // verus!
