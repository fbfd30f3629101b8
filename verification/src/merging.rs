//! Merging two sorted runs of updates, one update at a time.
//!
//! The state of a merge is how far it has read into either run and what it
//! has written so far. Times are advanced to a frontier as they are read;
//! updates that then share data and time are added up, and sums that come to
//! zero leave the output.

use vstd::prelude::*;
use crate::consolidation::absorb;
use crate::consolidation::combines;
use crate::consolidation::consolidated;
use crate::consolidation::equivalent;
use crate::consolidation::lemma_total_concat;
use crate::consolidation::lemma_total_push;
use crate::consolidation::total;
use crate::update::advance_by;
use crate::update::advance_update;
use crate::update::advanced;
use crate::update::key_le;
use crate::update::key_less;
use crate::update::lemma_advance_keeps_order;
use crate::update::lemma_key_transitive;
use crate::update::sorted;
use crate::update::Update;

verus! {

/// A merge of two runs that may stop and go on later.
pub struct MergeProgress {
    /// How many updates of the first run have been read.
    pub pos1: usize,
    /// How many updates of the second run have been read.
    pub pos2: usize,
    /// What the updates read so far come to.
    pub out: Vec<Update>,
}

impl MergeProgress {
    /// The state is one that a merge of `a` and `b` with times advanced to
    /// `since` can be in.
    pub open spec fn wf(&self, a: Seq<Update>, b: Seq<Update>, since: Seq<u64>) -> bool {
        &&& self.pos1 <= a.len()
        &&& self.pos2 <= b.len()
        &&& self.out@.len() <= self.pos1 + self.pos2
        &&& consolidated(self.out@)
        &&& forall|i: int| 0 <= i < self.out@.len() ==> crate::lattice::beyond(since, (#[trigger] self.out@[i]).time)
        &&& self.pos1 < a.len() ==> forall|i: int|
            0 <= i < self.out@.len() ==> key_le(#[trigger] self.out@[i], advance_update(a[self.pos1 as int], since))
        &&& self.pos2 < b.len() ==> forall|i: int|
            0 <= i < self.out@.len() ==> key_le(#[trigger] self.out@[i], advance_update(b[self.pos2 as int], since))
        &&& combines(
            self.out@,
            advanced(a.take(self.pos1 as int), since),
            advanced(b.take(self.pos2 as int), since),
        )
    }

    /// The number of updates still to be read.
    pub open spec fn remaining(&self, a: Seq<Update>, b: Seq<Update>) -> int {
        (a.len() - self.pos1) + (b.len() - self.pos2)
    }

    /// A merge that has read nothing.
    pub fn new() -> (p: MergeProgress)
        ensures
            p.pos1 == 0,
            p.pos2 == 0,
            p.out@.len() == 0,
            forall|a: Seq<Update>, b: Seq<Update>, since: Seq<u64>| #[trigger] p.wf(a, b, since),
    {
        let p = MergeProgress { pos1: 0, pos2: 0, out: Vec::new() };
        proof {
            assert forall|a: Seq<Update>, b: Seq<Update>, since: Seq<u64>| #[trigger]
                p.wf(a, b, since) by {
                assert(advanced(a.take(0), since) =~= Seq::<Update>::empty());
                assert(advanced(b.take(0), since) =~= Seq::<Update>::empty());
                assert(p.out@ =~= Seq::<Update>::empty());
                assert forall|d: u64, t: u64| total(Seq::<Update>::empty(), d, t) == 0 by {}
            }
        }
        p
    }

    /// Has everything been read?
    pub fn is_complete(&self, a: &Vec<Update>, b: &Vec<Update>) -> (r: bool)
        ensures
            r == (self.pos1 >= a@.len() && self.pos2 >= b@.len()),
    {
        self.pos1 >= a.len() && self.pos2 >= b.len()
    }

    /// Reads the next update, from the run whose next update comes first
    /// once advanced, and folds it into the output.
    pub fn step(&mut self, a: &Vec<Update>, b: &Vec<Update>, since: &[u64])
        requires
            old(self).wf(a@, b@, since@),
            sorted(a@),
            sorted(b@),
            old(self).remaining(a@, b@) > 0,
        ensures
            final(self).wf(a@, b@, since@),
            final(self).remaining(a@, b@) == old(self).remaining(a@, b@) - 1,
            final(self).pos1 >= old(self).pos1,
            final(self).pos2 >= old(self).pos2,
            final(self).out@.len() <= old(self).out@.len() + 1,
    {
        let ghost before1 = advanced(a@.take(self.pos1 as int), since@);
        let ghost before2 = advanced(b@.take(self.pos2 as int), since@);
        let ghost written = self.out@;
        let first: bool = if self.pos1 >= a.len() {
            false
        } else if self.pos2 >= b.len() {
            true
        } else {
            let x = advance_by(&a[self.pos1], since);
            let y = advance_by(&b[self.pos2], since);
            !key_less(&y, &x)
        };
        if first {
            let u = advance_by(&a[self.pos1], since);
            absorb(&mut self.out, u);
            self.pos1 = self.pos1 + 1;
            proof {
                crate::lattice::lemma_advance_reaches(a@[self.pos1 - 1].time, since@);
                assert forall|i: int| 0 <= i < self.out@.len() implies crate::lattice::beyond(
                    since@,
                    (#[trigger] self.out@[i]).time,
                ) by {
                    if self.out@[i].time != u.time {
                        assert(crate::lattice::beyond(since@, written[i].time));
                    }
                }
                assert(advanced(a@.take(self.pos1 as int), since@) =~= before1.push(u));
                lemma_total_push(before1, u);
                if self.pos1 < a@.len() {
                    lemma_advance_keeps_order(a@[self.pos1 - 1], a@[self.pos1 as int], since@);
                    let next = advance_update(a@[self.pos1 as int], since@);
                    assert forall|i: int| 0 <= i < self.out@.len() implies key_le(
                        #[trigger] self.out@[i],
                        next,
                    ) by {
                        lemma_key_transitive(self.out@[i], u, next);
                    }
                }
                if self.pos2 < b@.len() {
                    let next = advance_update(b@[self.pos2 as int], since@);
                    assert forall|i: int| 0 <= i < self.out@.len() implies key_le(
                        #[trigger] self.out@[i],
                        next,
                    ) by {
                        lemma_key_transitive(self.out@[i], u, next);
                    }
                }
            }
        } else {
            let len2 = b.len();
            let u = advance_by(&b[self.pos2], since);
            absorb(&mut self.out, u);
            assert(self.pos2 < len2);
            self.pos2 = self.pos2 + 1;
            proof {
                crate::lattice::lemma_advance_reaches(b@[self.pos2 - 1].time, since@);
                assert forall|i: int| 0 <= i < self.out@.len() implies crate::lattice::beyond(
                    since@,
                    (#[trigger] self.out@[i]).time,
                ) by {
                    if self.out@[i].time != u.time {
                        assert(crate::lattice::beyond(since@, written[i].time));
                    }
                }
                assert(advanced(b@.take(self.pos2 as int), since@) =~= before2.push(u));
                lemma_total_push(before2, u);
                if self.pos2 < b@.len() {
                    lemma_advance_keeps_order(b@[self.pos2 - 1], b@[self.pos2 as int], since@);
                    let next = advance_update(b@[self.pos2 as int], since@);
                    assert forall|i: int| 0 <= i < self.out@.len() implies key_le(
                        #[trigger] self.out@[i],
                        next,
                    ) by {
                        lemma_key_transitive(self.out@[i], u, next);
                    }
                }
                if self.pos1 < a@.len() {
                    let next = advance_update(a@[self.pos1 as int], since@);
                    assert forall|i: int| 0 <= i < self.out@.len() implies key_le(
                        #[trigger] self.out@[i],
                        next,
                    ) by {
                        lemma_key_transitive(self.out@[i], u, next);
                    }
                }
            }
        }
    }
}

/// Once everything is read, the output means what both runs mean together
/// after their times are advanced.
pub proof fn lemma_complete_merge(p: MergeProgress, a: Seq<Update>, b: Seq<Update>, since: Seq<u64>)
    requires
        p.wf(a, b, since),
        p.remaining(a, b) == 0,
    ensures
        consolidated(p.out@),
        equivalent(p.out@, advanced(a + b, since)),
        forall|i: int| 0 <= i < p.out@.len() ==> crate::lattice::beyond(since, (#[trigger] p.out@[i]).time),
{
    assert(a.take(p.pos1 as int) =~= a);
    assert(b.take(p.pos2 as int) =~= b);
    assert(advanced(a + b, since) =~= advanced(a, since) + advanced(b, since));
    lemma_total_concat(advanced(a, since), advanced(b, since));
    assert forall|d: u64, t: u64|
        #![trigger total(p.out@, d, t)]
        #![trigger total(advanced(a + b, since), d, t)]
        crate::difference::congruent(total(p.out@, d, t), total(advanced(a + b, since), d, t)) by {
        assert(crate::difference::congruent(
            total(p.out@, d, t),
            total(advanced(a, since), d, t) + total(advanced(b, since), d, t),
        ));
    }
}

/// Merges two sorted runs into one consolidated run, with times advanced to
/// `since`.
pub fn merge_runs(a: &Vec<Update>, b: &Vec<Update>, since: &[u64]) -> (out: Vec<Update>)
    requires
        sorted(a@),
        sorted(b@),
    ensures
        consolidated(out@),
        equivalent(out@, advanced(a@ + b@, since@)),
        out@ == crate::consolidation::canonical(advanced(a@ + b@, since@)),
        out@.len() <= a@.len() + b@.len(),
        forall|i: int| 0 <= i < out@.len() ==> crate::lattice::beyond(since@, (#[trigger] out@[i]).time),
{
    let mut progress = MergeProgress::new();
    while !progress.is_complete(a, b)
        invariant
            progress.wf(a@, b@, since@),
            sorted(a@),
            sorted(b@),
        decreases progress.remaining(a@, b@),
    {
        progress.step(a, b, since);
    }
    proof {
        lemma_complete_merge(progress, a@, b@, since@);
        crate::consolidation::lemma_canonical(progress.out@, advanced(a@ + b@, since@));
    }
    progress.out
}

fn consolidate_range(v: &Vec<Update>, lo: usize, hi: usize) -> (out: Vec<Update>)
    requires
        lo <= hi <= v@.len(),
    ensures
        consolidated(out@),
        equivalent(out@, v@.subrange(lo as int, hi as int)),
        out@.len() <= hi - lo,
    decreases hi - lo,
{
    let ghost part = v@.subrange(lo as int, hi as int);
    if hi - lo == 0 {
        let out: Vec<Update> = Vec::new();
        proof {
            assert(out@ =~= part);
        }
        out
    } else if hi - lo == 1 {
        let mut out: Vec<Update> = Vec::new();
        let u = v[lo];
        proof {
            assert(part =~= Seq::<Update>::empty().push(u));
            lemma_total_push(Seq::<Update>::empty(), u);
            assert forall|d: u64, t: u64| total(Seq::<Update>::empty(), d, t) == 0 by {}
        }
        if u.diff != 0 {
            out.push(u);
            proof {
                assert(out@ =~= part);
            }
        }
        out
    } else {
        let mid = lo + (hi - lo) / 2;
        let left = consolidate_range(v, lo, mid);
        let right = consolidate_range(v, mid, hi);
        let nowhere: Vec<u64> = Vec::new();
        let out = merge_runs(&left, &right, nowhere.as_slice());
        proof {
            let l = v@.subrange(lo as int, mid as int);
            let r = v@.subrange(mid as int, hi as int);
            assert(part =~= l + r);
            assert(nowhere@ =~= Seq::<u64>::empty());
            crate::update::lemma_advanced_nowhere(left@ + right@);
            crate::consolidation::lemma_equivalent_concat(left@, right@, l, r);
            crate::consolidation::lemma_equivalent_trans(out@, left@ + right@, part);
        }
        out
    }
}

/// Brings the updates into order and adds up those that share data and
/// time; sums that come to zero are left out.
pub fn consolidate_updates(v: &Vec<Update>) -> (out: Vec<Update>)
    ensures
        consolidated(out@),
        equivalent(out@, v@),
        out@ == crate::consolidation::canonical(v@),
        out@.len() <= v@.len(),
{
    let out = consolidate_range(v, 0, v.len());
    proof {
        assert(v@.subrange(0, v@.len() as int) =~= v@);
        crate::consolidation::lemma_canonical(out@, v@);
    }
    out
}

} // verus!
