//! Adds up the differences of equal records.
//!
//! A collection is the sum of its updates, so consolidation does not change
//! what a collection means. It changes how the collection is written down:
//! afterwards there is at most one update for each data and time, and none
//! where the differences cancel.

use vstd::prelude::*;
use crate::antichain::antichain_new;
use crate::consolidation::canonical;
use crate::consolidation::consolidated;
use crate::consolidation::equivalent;
use crate::consolidation::lemma_canonical;
use crate::consolidation::lemma_equivalent_concat;
use crate::consolidation::lemma_equivalent_refl;
use crate::consolidation::lemma_equivalent_sym;
use crate::consolidation::lemma_equivalent_trans;
use crate::levels::pow2;
use crate::merging::consolidate_updates;
use crate::trace::batch::Batch;
use crate::trace::cursor::concat_updates;
use crate::trace::implementations::merge_batcher::MergeBatcher;
use crate::trace::implementations::merge_batcher_flat::ready_updates;
use crate::trace::implementations::spine_fueled::cost;
use crate::trace::implementations::spine_fueled::operator_info;
use crate::trace::implementations::spine_fueled::selected;
use crate::trace::implementations::spine_fueled::views;
use crate::trace::implementations::spine_fueled::Spine;
use crate::update::Update;

verus! {

/// The number of updates that are consolidated at a time where a stream is
/// consolidated piece by piece.
pub const STREAM_BLOCK: usize = 1024;

/// A collection of updates, in the order in which they were recorded.
pub struct Collection {
    updates: Vec<Update>,
}

impl View for Collection {
    type V = Seq<Update>;

    closed spec fn view(&self) -> Seq<Update> {
        self.updates@
    }
}

/// The updates of `s` consolidated piece by piece: each run of `block`
/// updates by itself, one result after the other.
pub open spec fn consolidated_blocks(s: Seq<Update>, block: nat) -> Seq<Update>
    decreases s.len(),
{
    if s.len() == 0 || block == 0 {
        Seq::empty()
    } else if s.len() <= block {
        canonical(s)
    } else {
        canonical(s.take(block as int)) + consolidated_blocks(s.skip(block as int), block)
    }
}

/// With the empty frontier every update is ready.
pub proof fn lemma_all_ready(s: Seq<Update>)
    ensures
        ready_updates(s, Seq::empty()) == s,
    decreases s.len(),
{
    if s.len() > 0 {
        lemma_all_ready(s.drop_last());
        assert(s.drop_last().push(s.last()) =~= s);
    }
}

/// Introducing a batch that is small against the greatest `isize` fits the
/// capacity of a spine with effort one.
proof fn lemma_cost_bound(n: usize)
    requires
        n <= (isize::MAX as usize) / 64,
    ensures
        cost(n as nat) <= (isize::MAX as int) / 8,
{
    crate::levels::lemma_ceil_log2(n as nat);
    let k = crate::levels::ceil_log2_spec(n as nat);
    if k > 0 {
        assert(pow2(k) == 2 * pow2((k - 1) as nat));
    }
}

/// A copy of the updates.
fn copy_updates(updates: &Vec<Update>) -> (copy: Vec<Update>)
    ensures
        copy@ == updates@,
{
    let mut copy: Vec<Update> = Vec::new();
    let mut index: usize = 0;
    while index < updates.len()
        invariant
            index <= updates@.len(),
            copy@ == updates@.take(index as int),
        decreases updates@.len() - index,
    {
        copy.push(updates[index]);
        index += 1;
        proof {
            assert(copy@ =~= updates@.take(index as int));
        }
    }
    proof {
        assert(updates@.take(index as int) =~= updates@);
    }
    copy
}

impl Collection {
    /// The collection of the given updates.
    pub fn new(updates: Vec<Update>) -> (collection: Collection)
        ensures
            collection@ == updates@,
    {
        Collection { updates }
    }

    /// The updates of the collection.
    pub fn updates(&self) -> (updates: &Vec<Update>)
        ensures
            updates@ == self@,
    {
        &self.updates
    }

    /// Adds up the differences of equal records: the result holds the
    /// updates in order, with one update for each data and time for which
    /// the differences do not cancel.
    pub fn consolidate(&self) -> (result: Collection)
        ensures
            result@ == canonical(self@),
            consolidated(result@),
            equivalent(result@, self@),
    {
        self.consolidate_named("Consolidate")
    }

    /// As `consolidate`, with a name for the operator. The updates go
    /// through a merge batcher and are sealed into one batch, which a spine
    /// takes and hands out again through a cursor.
    pub fn consolidate_named(&self, name: &str) -> (result: Collection)
        ensures
            result@ == canonical(self@),
            consolidated(result@),
            equivalent(result@, self@),
    {
        let mut batcher = MergeBatcher::new();
        let mut index: usize = 0;
        proof {
            assert(self.updates@.take(0) =~= Seq::<Update>::empty());
            lemma_equivalent_refl(batcher.contents());
        }
        while index < self.updates.len()
            invariant
                index <= self.updates@.len(),
                batcher.wf(),
                batcher.spec_lower() == seq![0u64],
                equivalent(batcher.contents(), self.updates@.take(index as int)),
            decreases self.updates@.len() - index,
        {
            let mut chunk: Vec<Update> = Vec::new();
            let start = index;
            while index < self.updates.len() && chunk.len() < STREAM_BLOCK
                invariant
                    start <= index <= self.updates@.len(),
                    chunk@ == self.updates@.subrange(start as int, index as int),
                    chunk@.len() <= STREAM_BLOCK,
                decreases self.updates@.len() - index,
            {
                chunk.push(self.updates[index]);
                index += 1;
                proof {
                    assert(chunk@ =~= self.updates@.subrange(start as int, index as int));
                }
            }
            let ghost held = batcher.contents();
            batcher.push_chunk(&chunk);
            proof {
                let read = self.updates@.take(start as int);
                lemma_equivalent_refl(chunk@);
                lemma_equivalent_concat(held, chunk@, read, chunk@);
                lemma_equivalent_trans(batcher.contents(), held + chunk@, read + chunk@);
                assert(read + chunk@ =~= self.updates@.take(index as int));
            }
        }
        // Nothing is in advance of the empty frontier: all updates are
        // sealed into the batch.
        let upper = antichain_new();
        let ghost held = batcher.contents();
        let batch = batcher.seal(&upper);
        proof {
            assert(self.updates@.take(index as int) =~= self.updates@);
            lemma_all_ready(canonical(held));
            lemma_equivalent_trans(canonical(held), held, self.updates@);
            lemma_canonical(canonical(held), self.updates@);
        }
        let n = batch.len();
        if n > (isize::MAX as usize) / 64 {
            // Too large for the accounting of a spine.
            return Collection { updates: copy_updates(batch.updates()) };
        }
        let mut spine = Spine::new(operator_info(0), None);
        let ghost fresh = spine;
        let ghost sealed = batch;
        let ghost content = batch@;
        proof {
            lemma_cost_bound(n);
            spine.lemma_no_layers();
            spine.lemma_capacity_value();
            spine.lemma_waiting();
            assert(spine.pending() =~= Seq::<Batch>::empty());
            let w = fresh.waiting().push(content);
            assert(w[0] == content);
            assert(content.upper =~= Seq::<u64>::empty());
            assert(!crate::lattice::frontier_le(content.upper, seq![0u64])) by {
                assert(seq![0u64][0] == 0u64);
                assert(!crate::lattice::in_advance_of(content.upper, 0u64));
            }
        }
        spine.insert(batch);
        let nowhere: Vec<u64> = Vec::new();
        proof {
            assert(spine.pending() =~= seq![sealed]);
            assert(nowhere@ =~= Seq::<u64>::empty());
            assert(crate::lattice::frontier_le(spine.spec_distinguish_frontier(), nowhere@));
            assert(crate::lattice::frontier_le(content.lower, nowhere@));
            assert(crate::lattice::frontier_le(content.upper, nowhere@));
            assert(content.lower[0] == 0u64);
            assert(content.lower != content.upper);
        }
        let found = spine.cursor_through(nowhere.as_slice());
        match found {
            Some((list, storage)) => {
                let mut list = list;
                let updates = list.collect(&storage);
                proof {
                    let one = seq![sealed];
                    let none = Seq::<Batch>::empty();
                    assert(one =~= none.push(sealed));
                    assert(sealed@ == content);
                    crate::trace::implementations::spine_fueled::lemma_selected_push(none, sealed, Some(nowhere@));
                    assert(selected(none, Some(nowhere@)) =~= none);
                    assert(selected(one, Some(nowhere@)) =~= one);
                    assert(selected(none, None) =~= none);
                    assert(selected(none, None) + one =~= one);
                    assert(views(storage@).len() == views(one).len());
                    assert(storage@.len() == 1);
                    assert(views(storage@)[0] == views(one)[0]);
                    assert(storage@[0]@ == content);
                    assert(storage@.drop_last() =~= none);
                    assert(concat_updates(storage@.drop_last()) =~= Seq::<Update>::empty());
                    assert(storage@.last() == storage@[0]);
                    assert(concat_updates(storage@) =~= storage@[0]@.updates);
                    crate::update::lemma_advanced_by_minimum(concat_updates(storage@));
                    lemma_equivalent_refl(content.updates);
                    lemma_canonical(content.updates, content.updates);
                }
                Collection { updates }
            },
            None => vstd::pervasive::unreached(),
        }
    }

    /// Adds up the differences of equal records piece by piece: every run
    /// of `STREAM_BLOCK` updates is consolidated by itself. The result
    /// means what the collection means, but it may hold several updates for
    /// the same data and time.
    pub fn consolidate_stream(&self) -> (result: Collection)
        ensures
            result@ == consolidated_blocks(self@, STREAM_BLOCK as nat),
            equivalent(result@, self@),
    {
        let mut out: Vec<Update> = Vec::new();
        let mut index: usize = 0;
        proof {
            assert(self.updates@.skip(0) =~= self.updates@);
            assert(self.updates@.take(0) =~= Seq::<Update>::empty());
            lemma_equivalent_refl(out@);
        }
        while index < self.updates.len()
            invariant
                index <= self.updates@.len(),
                out@ + consolidated_blocks(self.updates@.skip(index as int), STREAM_BLOCK as nat)
                    == consolidated_blocks(self.updates@, STREAM_BLOCK as nat),
                equivalent(out@, self.updates@.take(index as int)),
            decreases self.updates@.len() - index,
        {
            let mut block: Vec<Update> = Vec::new();
            let start = index;
            while index < self.updates.len() && block.len() < STREAM_BLOCK
                invariant
                    start <= index <= self.updates@.len(),
                    block@ == self.updates@.subrange(start as int, index as int),
                    block@.len() <= STREAM_BLOCK,
                    block@.len() == index - start,
                decreases self.updates@.len() - index,
            {
                block.push(self.updates[index]);
                index += 1;
                proof {
                    assert(block@ =~= self.updates@.subrange(start as int, index as int));
                }
            }
            let sorted = consolidate_updates(&block);
            let ghost before = out@;
            let mut offset: usize = 0;
            while offset < sorted.len()
                invariant
                    offset <= sorted@.len(),
                    out@ == before + sorted@.take(offset as int),
                decreases sorted@.len() - offset,
            {
                out.push(sorted[offset]);
                offset += 1;
                proof {
                    assert(out@ =~= before + sorted@.take(offset as int));
                }
            }
            proof {
                assert(sorted@.take(offset as int) =~= sorted@);
                let rest = self.updates@.skip(start as int);
                let read = self.updates@.take(start as int);
                if rest.len() <= STREAM_BLOCK {
                    assert(block@ =~= rest);
                    assert(self.updates@.skip(index as int) =~= Seq::<Update>::empty());
                    assert(out@ + consolidated_blocks(self.updates@.skip(index as int), STREAM_BLOCK as nat) =~= before
                        + consolidated_blocks(rest, STREAM_BLOCK as nat));
                } else {
                    assert(block@ =~= rest.take(STREAM_BLOCK as int));
                    assert(rest.skip(STREAM_BLOCK as int) =~= self.updates@.skip(index as int));
                    assert(out@ + consolidated_blocks(self.updates@.skip(index as int), STREAM_BLOCK as nat) =~= before
                        + consolidated_blocks(rest, STREAM_BLOCK as nat));
                }
                lemma_equivalent_concat(before, sorted@, read, block@);
                assert(read + block@ =~= self.updates@.take(index as int));
            }
        }
        proof {
            assert(self.updates@.skip(index as int) =~= Seq::<Update>::empty());
            assert(out@ + Seq::<Update>::empty() =~= out@);
            assert(self.updates@.take(index as int) =~= self.updates@);
        }
        Collection { updates: out }
    }
}

} // verus!
