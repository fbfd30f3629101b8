//! Batches: immutable, consolidated runs of updates between two frontiers.

use vstd::prelude::*;
use crate::consolidation::consolidated;
use crate::consolidation::equivalent;
use crate::consolidation::lemma_consolidated_keys_from;
use crate::lattice::advance_spec;
use crate::lattice::beyond;
use crate::lattice::frontier_eq;
use crate::lattice::frontier_to_vec;
use crate::lattice::lemma_advance_reaches;
use crate::merging::consolidate_updates;
use crate::merging::lemma_complete_merge;
use crate::merging::MergeProgress;
use crate::trace::cursor::Cursor;
use crate::update::advance_by;
use crate::update::advanced;
use crate::update::same_key;
use crate::update::Update;

verus! {

/// What a batch holds.
pub ghost struct BatchView {
    /// The frontier at which the batch starts.
    pub lower: Seq<u64>,
    /// The frontier before which the batch ends.
    pub upper: Seq<u64>,
    /// The frontier to which the times have been advanced.
    pub since: Seq<u64>,
    /// The updates, in order.
    pub updates: Seq<Update>,
}

/// An immutable run of updates with the frontiers that bound it.
pub struct Batch {
    lower: Vec<u64>,
    upper: Vec<u64>,
    since: Vec<u64>,
    updates: Vec<Update>,
}

impl View for Batch {
    type V = BatchView;

    closed spec fn view(&self) -> BatchView {
        BatchView { lower: self.lower@, upper: self.upper@, since: self.since@, updates: self.updates@ }
    }
}

/// The frontier that a merge advances to: the given one, or the empty
/// frontier, which advances nothing.
pub open spec fn frontier_or_empty(since: Option<Vec<u64>>) -> Seq<u64> {
    match since {
        Some(frontier) => frontier@,
        None => Seq::empty(),
    }
}

impl Batch {
    #[verifier::type_invariant]
    spec fn updates_consolidated(self) -> bool {
        &&& consolidated(self.updates@)
        &&& forall|i: int| 0 <= i < self.updates@.len() ==> beyond(self.since@, (#[trigger] self.updates@[i]).time)
    }

    /// The frontier at which the batch starts.
    pub fn lower(&self) -> (frontier: &Vec<u64>)
        ensures
            frontier@ == self@.lower,
    {
        &self.lower
    }

    /// The frontier before which the batch ends.
    pub fn upper(&self) -> (frontier: &Vec<u64>)
        ensures
            frontier@ == self@.upper,
    {
        &self.upper
    }

    /// The frontier to which the times of the batch have been advanced.
    pub fn since(&self) -> (frontier: &Vec<u64>)
        ensures
            frontier@ == self@.since,
    {
        &self.since
    }

    /// The updates of the batch: in order, each data and time once, no
    /// difference zero, and every time advanced to the `since` frontier of
    /// the batch.
    pub fn updates(&self) -> (updates: &Vec<Update>)
        ensures
            updates@ == self@.updates,
            consolidated(updates@),
            forall|i: int| 0 <= i < updates@.len() ==> beyond(self@.since, (#[trigger] updates@[i]).time),
    {
        proof {
            use_type_invariant(self);
        }
        &self.updates
    }

    /// The number of updates in the batch.
    pub fn len(&self) -> (n: usize)
        ensures
            n == self@.updates.len(),
    {
        self.updates.len()
    }

    /// Is the batch logically empty, that is, do its bounds coincide?
    pub fn is_empty(&self) -> (r: bool)
        ensures
            r == (self@.lower == self@.upper),
    {
        frontier_eq(self.lower.as_slice(), self.upper.as_slice())
    }

    /// A cursor at the first update of the batch.
    pub fn cursor(&self) -> (cursor: Cursor)
        ensures
            cursor@ == 0,
    {
        Cursor::new()
    }

    /// A copy of the batch.
    pub fn duplicate(&self) -> (copy: Batch)
        ensures
            copy@ == self@,
    {
        proof {
            use_type_invariant(self);
        }
        let mut updates: Vec<Update> = Vec::new();
        let mut i: usize = 0;
        while i < self.updates.len()
            invariant
                i <= self.updates@.len(),
                updates@ == self.updates@.take(i as int),
            decreases self.updates@.len() - i,
        {
            updates.push(self.updates[i]);
            i += 1;
            proof {
                assert(updates@ =~= self.updates@.take(i as int));
            }
        }
        proof {
            assert(self.updates@.take(i as int) =~= self.updates@);
        }
        Batch {
            lower: frontier_to_vec(self.lower.as_slice()),
            upper: frontier_to_vec(self.upper.as_slice()),
            since: frontier_to_vec(self.since.as_slice()),
            updates,
        }
    }

    /// Starts the merge of `batch1` with `batch2`, which follows it. Until
    /// the merge is worked on with a frontier, its result is advanced to the
    /// empty frontier, that is, not at all.
    pub fn begin_merge(batch1: &Batch, batch2: &Batch) -> (merger: Merger)
        ensures
            merger.remaining(batch1@, batch2@) == batch1@.updates.len() + batch2@.updates.len(),
            merger.result().since == Seq::<u64>::empty(),
            forall|since: Seq<u64>| #[trigger] merger.wf(batch1@, batch2@, since),
    {
        let progress = MergeProgress::new();
        let merger = Merger {
            lower: frontier_to_vec(batch1.lower.as_slice()),
            upper: frontier_to_vec(batch2.upper.as_slice()),
            since: Vec::new(),
            progress,
        };
        proof {
            assert forall|since: Seq<u64>| #[trigger] merger.wf(batch1@, batch2@, since) by {
                assert(merger.progress.wf(batch1@.updates, batch2@.updates, since));
            }
        }
        merger
    }
}

/// Collects updates for a batch.
pub struct Builder {
    updates: Vec<Update>,
}

impl View for Builder {
    type V = Seq<Update>;

    closed spec fn view(&self) -> Seq<Update> {
        self.updates@
    }
}

impl Builder {
    /// A builder that holds nothing.
    pub fn new() -> (builder: Builder)
        ensures
            builder@ == Seq::<Update>::empty(),
    {
        Builder { updates: Vec::new() }
    }

    /// Takes one more update, in any order and with any difference.
    pub fn push(&mut self, data: u64, time: u64, diff: i64)
        ensures
            final(self)@ == old(self)@.push(Update { data, time, diff }),
    {
        self.updates.push(Update { data, time, diff });
    }

    /// The batch between `lower` and `upper` of what was pushed, with the
    /// times advanced to `since`: its updates are consolidated and mean what
    /// the advanced updates mean.
    pub fn done(self, lower: &[u64], upper: &[u64], since: &[u64]) -> (batch: Batch)
        ensures
            batch@.lower == lower@,
            batch@.upper == upper@,
            batch@.since == since@,
            consolidated(batch@.updates),
            equivalent(batch@.updates, advanced(self@, since@)),
            batch@.updates == crate::consolidation::canonical(advanced(self@, since@)),
            batch@.updates.len() <= self@.len(),
    {
        let mut moved: Vec<Update> = Vec::new();
        let mut i: usize = 0;
        while i < self.updates.len()
            invariant
                i <= self.updates@.len(),
                moved@ == advanced(self.updates@.take(i as int), since@),
            decreases self.updates@.len() - i,
        {
            moved.push(advance_by(&self.updates[i], since));
            i += 1;
            proof {
                assert(moved@ =~= advanced(self.updates@.take(i as int), since@));
            }
        }
        proof {
            assert(self.updates@.take(i as int) =~= self.updates@);
        }
        let updates = consolidate_updates(&moved);
        proof {
            assert forall|i: int| 0 <= i < updates@.len() implies beyond(since@, (#[trigger] updates@[i]).time) by {
                lemma_consolidated_keys_from(updates@, moved@, i);
                let j = choose|j: int| 0 <= j < moved@.len() && same_key(#[trigger] moved@[j], updates@[i]);
                lemma_advance_reaches(self.updates@[j].time, since@);
            }
        }
        Batch { lower: frontier_to_vec(lower), upper: frontier_to_vec(upper), since: frontier_to_vec(since), updates }
    }
}

/// A merge of two batches that is done a few updates at a time.
pub struct Merger {
    lower: Vec<u64>,
    upper: Vec<u64>,
    since: Vec<u64>,
    progress: MergeProgress,
}

impl Merger {
    #[verifier::type_invariant]
    spec fn output_consolidated(self) -> bool {
        &&& consolidated(self.progress.out@)
        &&& forall|i: int|
            0 <= i < self.progress.out@.len() ==> beyond(self.since@, (#[trigger] self.progress.out@[i]).time)
    }

    /// The merge is one of `batch1` with `batch2` in which times are
    /// advanced to `since`.
    pub closed spec fn wf(&self, batch1: BatchView, batch2: BatchView, since: Seq<u64>) -> bool {
        &&& self.progress.wf(batch1.updates, batch2.updates, since)
        &&& self.lower@ == batch1.lower
        &&& self.upper@ == batch2.upper
    }

    /// The number of updates still to be read.
    pub closed spec fn remaining(&self, batch1: BatchView, batch2: BatchView) -> int {
        self.progress.remaining(batch1.updates, batch2.updates)
    }

    /// What the batch holds that `done` gives now.
    pub closed spec fn result(&self) -> BatchView {
        BatchView { lower: self.lower@, upper: self.upper@, since: self.since@, updates: self.progress.out@ }
    }

    /// A merge has read at most everything.
    pub proof fn lemma_remaining_bounds(&self, batch1: BatchView, batch2: BatchView, since: Seq<u64>)
        requires
            self.wf(batch1, batch2, since),
        ensures
            0 <= self.remaining(batch1, batch2) <= batch1.updates.len() + batch2.updates.len(),
    {
    }

    /// Once everything is read, the result lies between the lower frontier
    /// of the first batch and the upper frontier of the second, is
    /// consolidated, means what the updates of both batches mean with their
    /// times advanced, and every time in it has been advanced.
    pub proof fn lemma_complete(&self, batch1: BatchView, batch2: BatchView, since: Seq<u64>)
        requires
            self.wf(batch1, batch2, since),
            self.remaining(batch1, batch2) == 0,
        ensures
            self.result().lower == batch1.lower,
            self.result().upper == batch2.upper,
            consolidated(self.result().updates),
            equivalent(self.result().updates, advanced(batch1.updates + batch2.updates, since)),
            forall|i: int| 0 <= i < self.result().updates.len() ==> beyond(since, (#[trigger] self.result().updates[i]).time),
    {
        lemma_complete_merge(self.progress, batch1.updates, batch2.updates, since);
        let out = self.result().updates;
        let all = advanced(batch1.updates + batch2.updates, since);
        assert forall|i: int| 0 <= i < out.len() implies beyond(since, (#[trigger] out[i]).time) by {
            lemma_consolidated_keys_from(out, all, i);
            let j = choose|j: int| 0 <= j < all.len() && same_key(#[trigger] all[j], out[i]);
            lemma_advance_reaches((batch1.updates + batch2.updates)[j].time, since);
        }
    }

    /// Reads updates while there is fuel and something to read; each
    /// update read takes one unit of fuel. The times of the updates are
    /// advanced to `since`, which becomes the `since` frontier of the
    /// result; without a frontier times stay as they are.
    pub fn work(&mut self, batch1: &Batch, batch2: &Batch, since: &Option<Vec<u64>>, fuel: &mut isize)
        requires
            old(self).wf(batch1@, batch2@, frontier_or_empty(*since)),
        ensures
            final(self).wf(batch1@, batch2@, frontier_or_empty(*since)),
            *old(fuel) <= 0 ==> *final(fuel) == *old(fuel) && final(self).remaining(batch1@, batch2@) == old(self).remaining(batch1@, batch2@),
            *old(fuel) > 0 && *old(fuel) <= old(self).remaining(batch1@, batch2@) ==> *final(fuel) == 0
                && final(self).remaining(batch1@, batch2@) == old(self).remaining(batch1@, batch2@) - *old(fuel),
            *old(fuel) > old(self).remaining(batch1@, batch2@) ==> *final(fuel) == *old(fuel) - old(self).remaining(batch1@, batch2@) && final(self).remaining(batch1@, batch2@) == 0,
            final(self).result().since == frontier_or_empty(*since),
            final(self).result().lower == old(self).result().lower,
            final(self).result().upper == old(self).result().upper,
            final(self).result().updates.len() <= batch1@.updates.len() + batch2@.updates.len(),
    {
        proof {
            use_type_invariant(&*self);
        }
        let first = batch1.updates();
        let second = batch2.updates();
        let nowhere: Vec<u64> = Vec::new();
        let frontier: &[u64] = match since {
            Some(frontier) => frontier.as_slice(),
            None => nowhere.as_slice(),
        };
        assert(frontier@ =~= frontier_or_empty(*since));
        let ghost start = self.progress.remaining(first@, second@);
        let ghost tank = *fuel as int;
        let mut progress = MergeProgress::new();
        core::mem::swap(&mut progress, &mut self.progress);
        while *fuel > 0 && !progress.is_complete(first, second)
            invariant
                progress.wf(first@, second@, frontier@),
                crate::update::sorted(first@),
                crate::update::sorted(second@),
                progress.remaining(first@, second@) <= start,
                tank > 0 ==> *fuel == tank - (start - progress.remaining(first@, second@)),
                tank <= 0 ==> *fuel == tank && progress.remaining(first@, second@) == start,
                *fuel >= 0 || tank <= 0,
            decreases progress.remaining(first@, second@),
        {
            progress.step(first, second, frontier);
            *fuel = *fuel - 1;
        }
        let recorded = frontier_to_vec(frontier);
        *self = Merger {
            lower: frontier_to_vec(self.lower.as_slice()),
            upper: frontier_to_vec(self.upper.as_slice()),
            since: recorded,
            progress,
        };
    }

    /// The batch that the merge has come to.
    pub fn done(self) -> (batch: Batch)
        ensures
            batch@ == self.result(),
    {
        proof {
            use_type_invariant(&self);
        }
        Batch { lower: self.lower, upper: self.upper, since: self.since, updates: self.progress.out }
    }
}

} // verus!
