//! Choosing the generations that one compaction retires.

use vstd::prelude::*;
use crate::stats::{GenStale, Statistics, distinct_gens, slot_of, slot_of_finds, slot_of_unique, stale_of, sum};

verus! {

/// A compaction stops choosing generations once this many stale bytes are
/// scheduled.
pub const COMPACTED_ONCE_BYTES: u64 = 16 * 1024;

/// The generations chosen for one compaction, the stalest first, and the
/// stale bytes that they hold together.
pub struct Selection {
    pub gens: Vec<u64>,
    pub bytes: u64,
}

/// The stale bytes that `s` records for the generations `picks` together.
pub open spec fn picked_sum(s: Seq<GenStale>, picks: Seq<u64>) -> nat
    decreases picks.len(),
{
    if picks.len() == 0 {
        0
    } else {
        picked_sum(s, picks.drop_last()) + stale_of(s, picks.last())
    }
}

/// `picks`, holding `bytes` stale bytes, is what a compaction takes from `s`:
/// recorded generations, none twice, in order of falling staleness, none
/// staler left behind, and as few as reach `COMPACTED_ONCE_BYTES`, or all.
/// Among equally stale generations the one recorded first goes first.
pub open spec fn is_selection(s: Seq<GenStale>, picks: Seq<u64>, bytes: nat) -> bool {
    &&& picks.no_duplicates()
    &&& forall|i: int| 0 <= i < picks.len() ==> slot_of(s, #[trigger] picks[i]) >= 0
    &&& bytes == picked_sum(s, picks)
    &&& forall|i: int, j: int|
        0 <= i < j < picks.len() ==> stale_of(s, picks[i]) >= stale_of(s, picks[j])
    &&& forall|k: int, i: int|
        0 <= k < s.len() && 0 <= i < picks.len() && !picks.contains(s[k].gen) ==> s[k].bytes
            <= stale_of(s, picks[i])
    &&& (bytes >= COMPACTED_ONCE_BYTES || picks.len() == s.len())
    &&& (picks.len() > 0 ==> picked_sum(s, picks.drop_last()) < COMPACTED_ONCE_BYTES)
    &&& forall|i: int, j: int|
        0 <= i < j < picks.len() && stale_of(s, picks[i]) == stale_of(s, picks[j]) ==> slot_of(
            s,
            picks[i],
        ) < slot_of(s, picks[j])
    &&& forall|k: int, i: int|
        0 <= k < s.len() && 0 <= i < picks.len() && !picks.contains(s[k].gen) && s[k].bytes
            == stale_of(s, picks[i]) ==> slot_of(s, picks[i]) < k
}

spec fn count_true(t: Seq<bool>) -> nat
    decreases t.len(),
{
    if t.len() == 0 {
        0
    } else {
        count_true(t.drop_last()) + (if t.last() {
            1nat
        } else {
            0nat
        })
    }
}

proof fn count_true_bound(t: Seq<bool>)
    ensures
        count_true(t) <= t.len(),
        count_true(t) == t.len() ==> forall|i: int| 0 <= i < t.len() ==> t[i],
        (forall|i: int| 0 <= i < t.len() ==> !t[i]) ==> count_true(t) == 0,
    decreases t.len(),
{
    if t.len() > 0 {
        count_true_bound(t.drop_last());
        assert forall|i: int| 0 <= i < t.len() && count_true(t) == t.len() implies t[i] by {
            if i < t.len() - 1 {
                assert(t.drop_last()[i] == t[i]);
            }
        }
        if forall|i: int| 0 <= i < t.len() ==> !t[i] {
            assert forall|i: int| 0 <= i < t.drop_last().len() implies !t.drop_last()[i] by {
                assert(t.drop_last()[i] == t[i]);
            }
        }
    }
}

proof fn count_true_set(t: Seq<bool>, i: int)
    requires
        0 <= i < t.len(),
        !t[i],
    ensures
        count_true(t.update(i, true)) == count_true(t) + 1,
    decreases t.len(),
{
    let u = t.update(i, true);
    if i == t.len() - 1 {
        assert(u.drop_last() =~= t.drop_last());
    } else {
        assert(u.drop_last() =~= t.drop_last().update(i, true));
        count_true_set(t.drop_last(), i);
    }
}

spec fn masked_sum(s: Seq<GenStale>, t: Seq<bool>) -> nat
    decreases s.len(),
{
    if s.len() == 0 || t.len() != s.len() {
        0
    } else {
        masked_sum(s.drop_last(), t.drop_last()) + (if t.last() {
            0nat
        } else {
            s.last().bytes as nat
        })
    }
}

proof fn masked_sum_none(s: Seq<GenStale>, t: Seq<bool>)
    requires
        t.len() == s.len(),
        forall|i: int| 0 <= i < t.len() ==> !t[i],
    ensures
        masked_sum(s, t) == sum(s),
    decreases s.len(),
{
    if s.len() > 0 {
        assert forall|i: int| 0 <= i < t.drop_last().len() implies !t.drop_last()[i] by {
            assert(t.drop_last()[i] == t[i]);
        }
        masked_sum_none(s.drop_last(), t.drop_last());
    }
}

proof fn masked_sum_set(s: Seq<GenStale>, t: Seq<bool>, i: int)
    requires
        t.len() == s.len(),
        0 <= i < t.len(),
        !t[i],
    ensures
        masked_sum(s, t.update(i, true)) + s[i].bytes == masked_sum(s, t),
    decreases s.len(),
{
    let u = t.update(i, true);
    if i == t.len() - 1 {
        assert(u.drop_last() =~= t.drop_last());
    } else {
        assert(u.drop_last() =~= t.drop_last().update(i, true));
        masked_sum_set(s.drop_last(), t.drop_last(), i);
    }
}

/// Chooses the generations to retire: the stalest first, until the chosen
/// ones hold `COMPACTED_ONCE_BYTES` stale bytes or none is left. Among
/// equally stale generations the one credited first goes first.
pub fn select(stats: &Statistics) -> (chosen: Selection)
    requires
        stats.wf(),
    ensures
        is_selection(stats@, chosen.gens@, chosen.bytes as nat),
{
    let n = stats.len();
    let ghost s = stats@;
    let mut taken: Vec<bool> = Vec::new();
    let mut k: usize = 0;
    while k < n
        invariant
            k <= n,
            taken@.len() == k,
            forall|i: int| 0 <= i < k ==> !taken@[i],
        decreases n - k,
    {
        taken.push(false);
        k += 1;
    }
    let mut gens: Vec<u64> = Vec::new();
    let mut bytes: u64 = 0;
    proof {
        stats.total_is_sum();
        masked_sum_none(s, taken@);
        count_true_bound(taken@);
    }
    while gens.len() < n && bytes < COMPACTED_ONCE_BYTES
        invariant
            stats.wf(),
            s == stats@,
            n == s.len(),
            distinct_gens(s),
            sum(s) <= u64::MAX,
            taken@.len() == n,
            forall|k: int| 0 <= k < n ==> (taken@[k] <==> gens@.contains(#[trigger] s[k].gen)),
            gens@.no_duplicates(),
            forall|i: int| 0 <= i < gens@.len() ==> slot_of(s, #[trigger] gens@[i]) >= 0,
            gens@.len() == count_true(taken@),
            bytes as nat == picked_sum(s, gens@),
            bytes + masked_sum(s, taken@) == sum(s),
            forall|i: int, j: int|
                0 <= i < j < gens@.len() ==> stale_of(s, gens@[i]) >= stale_of(s, gens@[j]),
            forall|k: int, i: int|
                0 <= k < n && 0 <= i < gens@.len() && !taken@[k] ==> s[k].bytes <= stale_of(
                    s,
                    gens@[i],
                ),
            gens@.len() > 0 ==> picked_sum(s, gens@.drop_last()) < COMPACTED_ONCE_BYTES,
            forall|i: int, j: int|
                0 <= i < j < gens@.len() && stale_of(s, gens@[i]) == stale_of(s, gens@[j])
                    ==> slot_of(s, gens@[i]) < slot_of(s, gens@[j]),
            forall|k: int, i: int|
                0 <= k < n && 0 <= i < gens@.len() && !taken@[k] && s[k].bytes == stale_of(
                    s,
                    gens@[i],
                ) ==> slot_of(s, gens@[i]) < k,
        decreases n - gens@.len(),
    {
        // the stalest generation not taken yet, the earliest among equals
        let mut best: Option<usize> = None;
        let mut j: usize = 0;
        while j < n
            invariant
                stats.wf(),
                s == stats@,
                n == s.len(),
                taken@.len() == n,
                j <= n,
                match best {
                    Some(b) => b < j && !taken@[b as int] && (forall|k: int|
                        0 <= k < j && !taken@[k] ==> s[k].bytes <= s[b as int].bytes) && (forall|
                        k: int,
                    |
                        0 <= k < b && !taken@[k] ==> s[k].bytes < s[b as int].bytes),
                    None => forall|k: int| 0 <= k < j ==> taken@[k],
                },
            decreases n - j,
        {
            if !taken[j] {
                let better = match best {
                    Some(b) => stats.entry(j).bytes > stats.entry(b).bytes,
                    None => true,
                };
                if better {
                    best = Some(j);
                }
            }
            j += 1;
        }
        match best {
            None => {
                proof {
                    count_true_bound(taken@);
                    assert(forall|i: int| 0 <= i < n ==> taken@[i]);
                    count_true_all(taken@);
                }
                assert(false);
            },
            Some(b) => {
                let e = stats.entry(b);
                let ghost old_gens = gens@;
                let ghost old_taken = taken@;
                proof {
                    slot_of_unique(s, b as int);
                    masked_sum_set(s, taken@, b as int);
                    count_true_set(taken@, b as int);
                    assert(gens@.push(e.gen).drop_last() =~= gens@);
                }
                taken.set(b, true);
                gens.push(e.gen);
                bytes = bytes + e.bytes;
                proof {
                    assert(stale_of(s, e.gen) == e.bytes);
                    assert forall|k: int| 0 <= k < n implies (taken@[k] <==> gens@.contains(
                        #[trigger] s[k].gen,
                    )) by {
                        if k == b as int {
                            assert(gens@[old_gens.len() as int] == e.gen);
                        } else {
                            if old_taken[k] {
                                assert(old_gens.contains(s[k].gen));
                                let w = old_gens.index_of(s[k].gen);
                                assert(gens@[w] == s[k].gen);
                            }
                            if gens@.contains(s[k].gen) {
                                let w = gens@.index_of(s[k].gen);
                                assert(0 <= w < gens@.len() && gens@[w] == s[k].gen);
                                if w < old_gens.len() {
                                    assert(old_gens[w] == s[k].gen);
                                } else {
                                    assert(s[k].gen == s[b as int].gen);
                                }
                            }
                        }
                    }
                    assert(gens@.no_duplicates()) by {
                        assert forall|x: int, y: int|
                            0 <= x < gens@.len() && 0 <= y < gens@.len() && x != y implies gens@[x]
                                != gens@[y] by {
                            if x < old_gens.len() && y < old_gens.len() {
                                assert(old_gens[x] != old_gens[y]);
                            } else if x < old_gens.len() {
                                assert(old_gens.contains(old_gens[x]));
                            } else if y < old_gens.len() {
                                assert(old_gens.contains(old_gens[y]));
                            }
                        }
                    }
                    assert forall|i: int, j: int| 0 <= i < j < gens@.len() implies stale_of(
                        s,
                        gens@[i],
                    ) >= stale_of(s, gens@[j]) by {
                        if j < old_gens.len() {
                            assert(gens@[i] == old_gens[i] && gens@[j] == old_gens[j]);
                        } else {
                            assert(gens@[i] == old_gens[i]);
                        }
                    }
                    assert forall|k: int, i: int|
                        0 <= k < n && 0 <= i < gens@.len() && !taken@[k] implies s[k].bytes
                            <= stale_of(s, gens@[i]) by {
                        if i < old_gens.len() {
                            assert(gens@[i] == old_gens[i]);
                        }
                    }
                    assert forall|i: int, j: int|
                        0 <= i < j < gens@.len() && stale_of(s, gens@[i]) == stale_of(
                            s,
                            gens@[j],
                        ) implies slot_of(s, gens@[i]) < slot_of(s, gens@[j]) by {
                        assert(gens@[i] == old_gens[i]);
                        if j < old_gens.len() {
                            assert(gens@[j] == old_gens[j]);
                        } else {
                            assert(!old_taken[b as int]);
                        }
                    }
                    assert forall|k: int, i: int|
                        0 <= k < n && 0 <= i < gens@.len() && !taken@[k] && s[k].bytes
                            == stale_of(s, gens@[i]) implies slot_of(s, gens@[i]) < k by {
                        if i < old_gens.len() {
                            assert(gens@[i] == old_gens[i]);
                            assert(!old_taken[k]);
                        } else {
                            assert(!old_taken[k]);
                        }
                    }
                }
            },
        }
    }
    proof {
        count_true_bound(taken@);
        assert forall|k: int, i: int|
            0 <= k < s.len() && 0 <= i < gens@.len() && !gens@.contains(s[k].gen) implies s[k].bytes
                <= stale_of(s, gens@[i]) by {
            assert(!taken@[k]);
        }
        assert forall|k: int, i: int|
            0 <= k < s.len() && 0 <= i < gens@.len() && !gens@.contains(s[k].gen) && s[k].bytes
                == stale_of(s, gens@[i]) implies slot_of(s, gens@[i]) < k by {
            assert(!taken@[k]);
        }
    }
    Selection { gens, bytes }
}

proof fn count_true_all(t: Seq<bool>)
    requires
        forall|i: int| 0 <= i < t.len() ==> t[i],
    ensures
        count_true(t) == t.len(),
    decreases t.len(),
{
    if t.len() > 0 {
        assert forall|i: int| 0 <= i < t.drop_last().len() implies t.drop_last()[i] by {
            assert(t.drop_last()[i] == t[i]);
        }
        count_true_all(t.drop_last());
    }
}

} // verus!
