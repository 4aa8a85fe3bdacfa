//! The open list of a search: a min-priority frontier over exact costs.
//!
//! `pop` removes the entry with the least estimated total cost; among
//! entries of equal estimated cost the one inserted later wins (stable
//! LIFO tie-break).  The index removed is pinned by a specification
//! function, so which of several equal-cost optimal paths a search
//! returns is fully deterministic.

use vstd::prelude::*;
use crate::cost::{lemma_cost_le_refl, lemma_cost_le_total, lemma_cost_le_trans, Cost};

verus! {

/// The index `pop` removes from a non-empty entry sequence: the least
/// cost, with later entries preferred on ties.
pub open spec fn best_index<T>(s: Seq<(Cost, T)>) -> int
    decreases s.len(),
{
    if s.len() <= 1 {
        0
    } else {
        let b = best_index(s.drop_last());
        if Cost::le_spec(s.last().0, s[b].0) {
            s.len() - 1
        } else {
            b
        }
    }
}

/// `best_index` lies inside the sequence.
pub proof fn lemma_best_index_range<T>(s: Seq<(Cost, T)>)
    requires
        s.len() > 0,
    ensures
        0 <= best_index(s) < s.len(),
    decreases s.len(),
{
    if s.len() > 1 {
        lemma_best_index_range(s.drop_last());
    }
}

/// `best_index` really is a minimum: its key is below every entry's key
/// in the exact order (with the later of equal keys preferred).
pub proof fn lemma_best_index_min<T>(s: Seq<(Cost, T)>)
    requires
        s.len() > 0,
    ensures
        forall|j: int|
            0 <= j < s.len() ==> Cost::le_spec(s[best_index(s)].0, (#[trigger] s[j]).0),
    decreases s.len(),
{
    lemma_best_index_range(s);
    if s.len() == 1 {
        lemma_cost_le_refl(s[0].0);
    } else {
        let pre = s.drop_last();
        lemma_best_index_min(pre);
        lemma_best_index_range(pre);
        let b = best_index(pre);
        let last = s.last().0;
        lemma_cost_le_total(last, s[b].0);
        assert forall|j: int|
            0 <= j < s.len() implies Cost::le_spec(s[best_index(s)].0, (#[trigger] s[j]).0) by {
            if Cost::le_spec(last, s[b].0) {
                assert(best_index(s) == s.len() - 1);
                if j < s.len() - 1 {
                    assert(pre[j] == s[j]);
                    assert(Cost::le_spec(pre[b].0, pre[j].0));
                    lemma_cost_le_trans(last, s[b].0, s[j].0);
                } else {
                    lemma_cost_le_refl(last);
                }
            } else {
                assert(best_index(s) == b);
                if j < s.len() - 1 {
                    assert(pre[j] == s[j]);
                    assert(Cost::le_spec(pre[b].0, pre[j].0));
                } else {
                    assert(Cost::le_spec(s[b].0, last));
                }
            }
        }
    }
}

/// A min-priority frontier of payloads keyed by estimated total cost.
pub struct Frontier<T> {
    entries: Vec<(Cost, T)>,
}

impl<T> Frontier<T> {
    /// The entries in insertion order.
    pub closed spec fn items(self) -> Seq<(Cost, T)> {
        self.entries@
    }

    /// All keys small enough for exact comparison.
    pub open spec fn keys_wf(self) -> bool {
        forall|i: int| 0 <= i < self.items().len() ==> (#[trigger] self.items()[i].0).wf()
    }

    pub fn new() -> (r: Frontier<T>)
        ensures
            r.items() == Seq::<(Cost, T)>::empty(),
    {
        Frontier { entries: Vec::new() }
    }

    pub fn len(&self) -> (r: usize)
        ensures
            r == self.items().len(),
    {
        self.entries.len()
    }

    /// Insert an entry with its estimated total cost.
    pub fn push(&mut self, key: Cost, item: T)
        requires
            key.wf(),
        ensures
            final(self).items() == old(self).items().push((key, item)),
    {
        self.entries.push((key, item));
    }

    /// Remove and return the entry at `best_index`: least estimated cost,
    /// later-inserted entries winning ties.
    pub fn pop(&mut self) -> (r: Option<(Cost, T)>)
        requires
            old(self).keys_wf(),
        ensures
            old(self).items().len() == 0 ==> r is None && final(self).items() == old(
                self,
            ).items(),
            old(self).items().len() > 0 ==> {
                let b = best_index(old(self).items());
                &&& r == Some(old(self).items()[b])
                &&& final(self).items() == old(self).items().remove(b)
                &&& forall|j: int|
                    0 <= j < old(self).items().len() ==> Cost::le_spec(
                        old(self).items()[b].0,
                        (#[trigger] old(self).items()[j]).0,
                    )
            },
    {
        if self.entries.len() == 0 {
            return None;
        }
        let ghost s = self.entries@;
        let mut best: usize = 0;
        let mut i: usize = 1;
        proof {
            assert(s.take(1).len() == 1);
            assert(best_index(s.take(1)) == 0);
        }
        while i < self.entries.len()
            invariant
                1 <= i <= s.len(),
                0 <= best < i,
                self.entries@ == s,
                forall|j: int| 0 <= j < s.len() ==> (#[trigger] s[j].0).wf(),
                best == best_index(s.take(i as int)),
            decreases s.len() - i,
        {
            let ci = self.entries[i].0;
            let cb = self.entries[best].0;
            proof {
                let t = s.take(i as int + 1);
                assert(t.drop_last() =~= s.take(i as int));
                assert(t.last() == s[i as int]);
                lemma_best_index_range(s.take(i as int));
            }
            if ci.le(cb) {
                best = i;
            }
            i = i + 1;
        }
        proof {
            assert(s.take(s.len() as int) =~= s);
            lemma_best_index_range(s);
            lemma_best_index_min(s);
        }
        let entry = self.entries.remove(best);
        Some(entry)
    }
}

} // verus!
