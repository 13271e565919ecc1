//! Staleness statistics: how many bytes of each generation no longer
//! contribute to the live state.

use vstd::prelude::*;
use crate::error::ErrorCode;

verus! {

/// The stale bytes recorded for one generation.
#[derive(Clone, Copy, Debug, PartialEq, Eq, Structural)]
pub struct GenStale {
    pub gen: u64,
    pub bytes: u64,
}

/// The sum of the stale bytes of all records of `s`.
pub open spec fn sum(s: Seq<GenStale>) -> nat
    decreases s.len(),
{
    if s.len() == 0 {
        0
    } else {
        sum(s.drop_last()) + s.last().bytes as nat
    }
}

/// The place of generation `gen` in `s`, or -1 where `s` does not record it.
pub open spec fn slot_of(s: Seq<GenStale>, gen: u64) -> int
    decreases s.len(),
{
    if s.len() == 0 {
        -1
    } else if s.last().gen == gen {
        s.len() - 1
    } else {
        slot_of(s.drop_last(), gen)
    }
}

/// The stale bytes that `s` records for `gen`; 0 where it records none.
pub open spec fn stale_of(s: Seq<GenStale>, gen: u64) -> nat {
    if slot_of(s, gen) < 0 {
        0
    } else {
        s[slot_of(s, gen)].bytes as nat
    }
}

/// No generation is recorded twice.
pub open spec fn distinct_gens(s: Seq<GenStale>) -> bool {
    forall|i: int, j: int| 0 <= i < j < s.len() ==> s[i].gen != s[j].gen
}

/// `s` after `bytes` more stale bytes were found in `gen`.
pub open spec fn credited(s: Seq<GenStale>, gen: u64, bytes: u64) -> Seq<GenStale> {
    let i = slot_of(s, gen);
    if i < 0 {
        s.push(GenStale { gen, bytes })
    } else {
        s.update(i, GenStale { gen, bytes: (s[i].bytes + bytes) as u64 })
    }
}

/// `s` without the record of `gen`.
pub open spec fn cleared(s: Seq<GenStale>, gen: u64) -> Seq<GenStale> {
    let i = slot_of(s, gen);
    if i < 0 {
        s
    } else {
        s.remove(i)
    }
}

/// `slot_of` finds the record of a generation exactly where there is one.
pub proof fn slot_of_finds(s: Seq<GenStale>, gen: u64)
    ensures
        -1 <= slot_of(s, gen) < s.len(),
        slot_of(s, gen) >= 0 ==> s[slot_of(s, gen)].gen == gen,
        slot_of(s, gen) < 0 ==> forall|i: int| 0 <= i < s.len() ==> s[i].gen != gen,
    decreases s.len(),
{
    if s.len() > 0 && s.last().gen != gen {
        slot_of_finds(s.drop_last(), gen);
        assert forall|i: int| 0 <= i < s.len() && slot_of(s, gen) < 0 implies s[i].gen
            != gen by {
            if i < s.len() - 1 {
                assert(s.drop_last()[i] == s[i]);
            }
        }
    }
}

/// Where generations are distinct, the record at place `i` is the one that
/// `slot_of` finds for its generation.
pub proof fn slot_of_unique(s: Seq<GenStale>, i: int)
    requires
        distinct_gens(s),
        0 <= i < s.len(),
    ensures
        slot_of(s, s[i].gen) == i,
{
    slot_of_finds(s, s[i].gen);
}

/// Replacing one record changes the sum by the difference of its bytes.
pub proof fn sum_update(s: Seq<GenStale>, i: int, x: GenStale)
    requires
        0 <= i < s.len(),
    ensures
        sum(s.update(i, x)) == sum(s) - s[i].bytes + x.bytes,
    decreases s.len(),
{
    let t = s.update(i, x);
    if i == s.len() - 1 {
        assert(t.drop_last() =~= s.drop_last());
    } else {
        assert(t.drop_last() =~= s.drop_last().update(i, x));
        sum_update(s.drop_last(), i, x);
    }
}

/// Taking one record out lowers the sum by its bytes.
pub proof fn sum_remove(s: Seq<GenStale>, i: int)
    requires
        0 <= i < s.len(),
    ensures
        sum(s.remove(i)) == sum(s) - s[i].bytes,
    decreases s.len(),
{
    let t = s.remove(i);
    if i == s.len() - 1 {
        assert(t =~= s.drop_last());
    } else {
        assert(t.drop_last() =~= s.drop_last().remove(i));
        assert(t.last() == s.last());
        sum_remove(s.drop_last(), i);
    }
}

/// Appending one record raises the sum by its bytes.
pub proof fn sum_push(s: Seq<GenStale>, x: GenStale)
    ensures
        sum(s.push(x)) == sum(s) + x.bytes,
{
    assert(s.push(x).drop_last() =~= s);
}

/// Crediting keeps generations distinct and raises the sum by the credit.
pub proof fn credited_sum(s: Seq<GenStale>, gen: u64, bytes: u64)
    requires
        distinct_gens(s),
        sum(s) + bytes <= u64::MAX,
    ensures
        distinct_gens(credited(s, gen, bytes)),
        sum(credited(s, gen, bytes)) == sum(s) + bytes,
        stale_of(credited(s, gen, bytes), gen) == stale_of(s, gen) + bytes,
        forall|g: u64| g != gen ==> stale_of(credited(s, gen, bytes), g) == stale_of(s, g),
{
    let i = slot_of(s, gen);
    let t = credited(s, gen, bytes);
    slot_of_finds(s, gen);
    if i < 0 {
        sum_push(s, GenStale { gen, bytes });
        assert(t.drop_last() =~= s);
    } else {
        sum_update(s, i, GenStale { gen, bytes: (s[i].bytes + bytes) as u64 });
        sum_bounds(s, i);
        slot_of_unique(t, i);
    }
    assert forall|g: u64| g != gen implies stale_of(t, g) == stale_of(s, g) by {
        slot_of_finds(s, g);
        slot_of_finds(t, g);
        if slot_of(s, g) >= 0 {
            slot_of_unique(t, slot_of(s, g));
        } else if slot_of(t, g) >= 0 {
            assert(s[slot_of(t, g)].gen == g);
        }
    }
}

/// Each record's bytes are at most the sum.
pub proof fn sum_bounds(s: Seq<GenStale>, i: int)
    requires
        0 <= i < s.len(),
    ensures
        s[i].bytes <= sum(s),
    decreases s.len(),
{
    if i < s.len() - 1 {
        sum_bounds(s.drop_last(), i);
    }
}

/// Clearing keeps generations distinct and lowers the sum by what the
/// generation held.
pub proof fn cleared_sum(s: Seq<GenStale>, gen: u64)
    requires
        distinct_gens(s),
    ensures
        distinct_gens(cleared(s, gen)),
        sum(cleared(s, gen)) == sum(s) - stale_of(s, gen),
        stale_of(cleared(s, gen), gen) == 0,
        slot_of(cleared(s, gen), gen) < 0,
        forall|g: u64| g != gen ==> stale_of(cleared(s, gen), g) == stale_of(s, g),
{
    let i = slot_of(s, gen);
    let t = cleared(s, gen);
    slot_of_finds(s, gen);
    slot_of_finds(t, gen);
    if i >= 0 {
        sum_remove(s, i);
        if slot_of(t, gen) >= 0 {
            let j = slot_of(t, gen);
            let j0 = if j < i { j } else { j + 1 };
            assert(t[j] == s[j0]);
        }
    }
    assert forall|g: u64| g != gen implies stale_of(t, g) == stale_of(s, g) by {
        slot_of_finds(s, g);
        slot_of_finds(t, g);
        if i >= 0 {
            if slot_of(s, g) >= 0 {
                let k = slot_of(s, g);
                let k1 = if k < i { k } else { k - 1 };
                assert(t[k1] == s[k]);
                slot_of_unique(t, k1);
            } else if slot_of(t, g) >= 0 {
                let j = slot_of(t, g);
                let j0 = if j < i { j } else { j + 1 };
                assert(t[j] == s[j0]);
            }
        }
    }
}

/// The stale bytes of every generation, and their total.
///
/// The view lists one record per generation that has been credited, in the
/// order of first credit.
pub struct Statistics {
    uncompacted: Vec<GenStale>,
    total_uncompacted: u64,
}

impl View for Statistics {
    type V = Seq<GenStale>;

    closed spec fn view(&self) -> Seq<GenStale> {
        self.uncompacted@
    }
}

impl Statistics {
    /// No generation is recorded twice, and the total is the sum of the
    /// records.
    pub closed spec fn wf(self) -> bool {
        &&& distinct_gens(self@)
        &&& self.total_uncompacted as nat == sum(self@)
    }

    /// The total is the sum over the generations and fits in 64 bits.
    pub proof fn total_is_sum(self)
        requires
            self.wf(),
        ensures
            sum(self@) <= u64::MAX,
            distinct_gens(self@),
    {
    }

    /// Statistics that record nothing.
    pub fn new() -> (stats: Statistics)
        ensures
            stats.wf(),
            stats@ == Seq::<GenStale>::empty(),
    {
        Statistics { uncompacted: Vec::new(), total_uncompacted: 0 }
    }

    /// The stale bytes of all generations together.
    pub fn total(&self) -> (bytes: u64)
        requires
            self.wf(),
        ensures
            bytes == sum(self@),
    {
        self.total_uncompacted
    }

    /// The number of generations recorded.
    pub fn len(&self) -> (n: usize)
        ensures
            n == self@.len(),
    {
        self.uncompacted.len()
    }

    /// The record at place `i`.
    pub fn entry(&self, i: usize) -> (e: GenStale)
        requires
            i < self@.len(),
        ensures
            e == self@[i as int],
    {
        self.uncompacted[i]
    }

    fn find(&self, gen: u64) -> (slot: Option<usize>)
        requires
            self.wf(),
        ensures
            match slot {
                Some(i) => i < self@.len() && i as int == slot_of(self@, gen),
                None => slot_of(self@, gen) < 0,
            },
    {
        let mut i: usize = 0;
        while i < self.uncompacted.len()
            invariant
                self.wf(),
                i <= self@.len(),
                forall|j: int| 0 <= j < i ==> self@[j].gen != gen,
            decreases self@.len() - i,
        {
            if self.uncompacted[i].gen == gen {
                proof {
                    slot_of_unique(self@, i as int);
                }
                return Some(i);
            }
            i += 1;
        }
        proof {
            slot_of_finds(self@, gen);
        }
        None
    }

    /// The stale bytes recorded for `gen`.
    pub fn get(&self, gen: u64) -> (bytes: u64)
        requires
            self.wf(),
        ensures
            bytes == stale_of(self@, gen),
    {
        match self.find(gen) {
            Some(i) => self.uncompacted[i].bytes,
            None => 0,
        }
    }

    /// Adds `bytes` to the stale bytes of `gen` and to the total. Fails with
    /// `Internal`, changing nothing, where the total would pass 64 bits.
    pub fn credit(&mut self, gen: u64, bytes: u64) -> (done: Result<(), ErrorCode>)
        requires
            old(self).wf(),
        ensures
            final(self).wf(),
            done.is_ok() <==> sum(old(self)@) + bytes <= u64::MAX,
            done.is_ok() ==> final(self)@ == credited(old(self)@, gen, bytes),
            done.is_err() ==> done == Err::<(), ErrorCode>(ErrorCode::Internal) && final(self)@
                == old(self)@,
    {
        if bytes > u64::MAX - self.total_uncompacted {
            return Err(ErrorCode::Internal);
        }
        proof {
            credited_sum(self@, gen, bytes);
        }
        match self.find(gen) {
            Some(i) => {
                proof {
                    sum_bounds(self@, i as int);
                }
                let held = self.uncompacted[i].bytes;
                self.uncompacted.set(i, GenStale { gen, bytes: held + bytes });
            },
            None => {
                self.uncompacted.push(GenStale { gen, bytes });
            },
        }
        self.total_uncompacted = self.total_uncompacted + bytes;
        Ok(())
    }

    /// Forgets the record of `gen`, takes its bytes off the total and returns
    /// them.
    pub fn clear(&mut self, gen: u64) -> (bytes: u64)
        requires
            old(self).wf(),
        ensures
            final(self).wf(),
            bytes == stale_of(old(self)@, gen),
            final(self)@ == cleared(old(self)@, gen),
    {
        proof {
            cleared_sum(self@, gen);
        }
        match self.find(gen) {
            Some(i) => {
                proof {
                    sum_bounds(self@, i as int);
                }
                let gone = self.uncompacted.remove(i);
                self.total_uncompacted = self.total_uncompacted - gone.bytes;
                gone.bytes
            },
            None => 0,
        }
    }
}

} // verus!
