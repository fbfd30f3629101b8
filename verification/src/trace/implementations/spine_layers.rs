//! The layers of a spine.
//!
//! A layer is vacant, holds one batch or a placeholder for one, or holds
//! two batches with the merge that makes one batch of them.

use vstd::prelude::*;
use crate::consolidation::canonical;
use crate::update::times_beyond;
use crate::consolidation::accumulated;
use crate::consolidation::lemma_accumulated_concat;
use crate::consolidation::lemma_advanced_agrees;
use crate::difference::congruent;
use crate::lattice::beyond;
use crate::levels::pow2;
use crate::trace::batch::Batch;
use crate::trace::batch::Merger;
use crate::trace::batch::frontier_or_empty;
use crate::update::advanced;

verus! {

/// The state of a merge of two batches.
pub(crate) enum MergeVariant {
    /// A merge that is under way, with the frontier it advances times to.
    InProgress(Batch, Batch, Option<Vec<u64>>, Merger),
    /// A merge that needs no more work, with or without a batch.
    Complete(Option<Batch>),
}

/// The state of a layer.
pub(crate) enum MergeState {
    /// A layer that holds nothing.
    Vacant,
    /// A layer that holds one batch, or a placeholder for one.
    Single(Option<Batch>),
    /// A layer that holds two batches, which are merged.
    Double(MergeVariant),
}

/// The lower and the upper frontier of what a batch or a placeholder covers.
pub(crate) open spec fn batch_span(batch: Option<Batch>) -> Option<(Seq<u64>, Seq<u64>)> {
    match batch {
        Some(b) => Some((b@.lower, b@.upper)),
        None => None,
    }
}

/// The upper frontier of a span.
pub(crate) open spec fn span_upper(span: Option<(Seq<u64>, Seq<u64>)>) -> Seq<u64> {
    match span {
        Some((_, upper)) => upper,
        None => Seq::empty(),
    }
}

/// The lower frontier of a span.
pub(crate) open spec fn span_lower(span: Option<(Seq<u64>, Seq<u64>)>) -> Seq<u64> {
    match span {
        Some((lower, _)) => lower,
        None => Seq::empty(),
    }
}

/// The number of updates of a batch, none for a placeholder.
pub(crate) open spec fn batch_len(batch: Option<Batch>) -> int {
    match batch {
        Some(b) => b@.updates.len() as int,
        None => 0,
    }
}

/// What a batch, or a placeholder, accumulates for `data` up to `query`.
pub(crate) open spec fn batch_acc(batch: Option<Batch>, data: u64, query: u64) -> int {
    match batch {
        Some(b) => accumulated(b@.updates, data, query),
        None => 0,
    }
}

impl MergeVariant {
    /// What the batches of the merge accumulate for `data` up to `query`.
    pub(crate) open spec fn acc(self, data: u64, query: u64) -> int {
        match self {
            MergeVariant::InProgress(b1, b2, _, _) => accumulated(b1@.updates, data, query) + accumulated(
                b2@.updates,
                data,
                query,
            ),
            MergeVariant::Complete(batch) => batch_acc(batch, data, query),
        }
    }

    /// The query time is beyond the frontier that the merge advances times
    /// to, so that the merge does not change what is accumulated there.
    pub(crate) open spec fn settled(self, query: u64) -> bool {
        match self {
            MergeVariant::InProgress(_, _, frontier, _) => beyond(frontier_or_empty(frontier), query),
            MergeVariant::Complete(_) => true,
        }
    }

    /// What a merge that needs no more work came to.
    pub(crate) open spec fn outcome(self) -> Option<Batch> {
        self->Complete_0
    }

    /// The frontier to which a merge in progress advances times.
    pub(crate) open spec fn target(self) -> Seq<u64> {
        frontier_or_empty(self->InProgress_2)
    }

    /// `after` accumulates what the merge accumulates, wherever the merge
    /// is settled.
    pub(crate) open spec fn kept_by(self, after: MergeVariant) -> bool {
        &&& forall|q: u64| self.settled(q) ==> #[trigger] after.settled(q)
        &&& forall|d: u64, q: u64|
            #![trigger after.acc(d, q)]
            self.settled(q) ==> congruent(after.acc(d, q), self.acc(d, q))
    }

    /// The merge fits its batches, and the second batch follows the first.
    pub(crate) open spec fn wf(self) -> bool {
        match self {
            MergeVariant::InProgress(b1, b2, frontier, merger) => {
                &&& merger.wf(b1@, b2@, frontier_or_empty(frontier))
                &&& b1@.upper == b2@.lower
            },
            MergeVariant::Complete(_) => true,
        }
    }

    /// The number of updates that the merge has still to read.
    pub(crate) open spec fn remaining(self) -> int {
        match self {
            MergeVariant::InProgress(b1, b2, _, merger) => merger.remaining(b1@, b2@),
            MergeVariant::Complete(_) => 0,
        }
    }

    /// The lower and upper frontier of what the merge covers.
    pub(crate) open spec fn span(self) -> Option<(Seq<u64>, Seq<u64>)> {
        match self {
            MergeVariant::InProgress(b1, b2, _, _) => Some((b1@.lower, b2@.upper)),
            MergeVariant::Complete(batch) => batch_span(batch),
        }
    }

    /// The number of updates in the batches of the merge.
    pub(crate) open spec fn len(self) -> int {
        match self {
            MergeVariant::InProgress(b1, b2, _, _) => (b1@.updates.len() + b2@.updates.len()) as int,
            MergeVariant::Complete(batch) => batch_len(batch),
        }
    }

    /// The merge needs no more work.
    pub(crate) open spec fn finished(self) -> bool {
        self is Complete
    }

    /// The batches that are merged and the frontier that times are advanced
    /// to.
    pub(crate) open spec fn parts(self) -> (Batch, Batch, Option<Vec<u64>>) {
        (self->InProgress_0, self->InProgress_1, self->InProgress_2)
    }

    /// Applies fuel to the merge. A merge that has fewer updates to read
    /// than there is fuel becomes complete.
    pub(crate) fn work(&mut self, fuel: &mut isize)
        requires
            old(self).wf(),
        ensures
            final(self).wf(),
            final(self).span() == old(self).span(),
            final(self).len() <= old(self).len(),
            old(self).kept_by(*final(self)),
            !old(self).finished() && final(self).finished() ==> final(self).outcome() is Some && final(self).outcome()->0@.since == old(self).target() && result_of(
                MergeState::Double(*old(self)),
                final(self).outcome()->0,
            ),
            old(self).finished() ==> *final(self) == *old(self) && *final(fuel) == *old(fuel),
            !old(self).finished() && *old(fuel) > old(self).remaining() ==> final(self).finished() && *final(fuel)
                == *old(fuel) - old(self).remaining(),
            !old(self).finished() && *old(fuel) <= old(self).remaining() ==> {
                &&& !final(self).finished()
                &&& final(self).parts() == old(self).parts()
                &&& *old(fuel) > 0 ==> *final(fuel) == 0 && final(self).remaining() == old(self).remaining() - *old(fuel)
                &&& *old(fuel) <= 0 ==> *final(fuel) == *old(fuel) && final(self).remaining() == old(self).remaining()
            },
    {
        let mut variant = MergeVariant::Complete(None);
        core::mem::swap(self, &mut variant);
        match variant {
            MergeVariant::InProgress(b1, b2, frontier, merger) => {
                let mut merger = merger;
                proof {
                    merger.lemma_remaining_bounds(b1@, b2@, frontier_or_empty(frontier));
                }
                merger.work(&b1, &b2, &frontier, fuel);
                if *fuel > 0 {
                    proof {
                        let since = frontier_or_empty(frontier);
                        merger.lemma_complete(b1@, b2@, since);
                        let out = merger.result().updates;
                        lemma_advanced_agrees(out, b1@.updates + b2@.updates, since);
                        crate::consolidation::lemma_canonical(out, advanced(b1@.updates + b2@.updates, since));
                        lemma_accumulated_concat(b1@.updates, b2@.updates);
                        assert forall|d: u64, q: u64| beyond(since, q) implies congruent(
                            #[trigger] accumulated(out, d, q),
                            accumulated(b1@.updates, d, q) + accumulated(b2@.updates, d, q),
                        ) by {
                            assert(congruent(accumulated(out, d, q), accumulated(b1@.updates + b2@.updates, d, q)));
                        }
                    }
                    *self = MergeVariant::Complete(Some(merger.done()));
                } else {
                    *self = MergeVariant::InProgress(b1, b2, frontier, merger);
                }
            },
            MergeVariant::Complete(batch) => {
                *self = MergeVariant::Complete(batch);
            },
        }
    }

    /// Completes the merge and hands out its batch, if there is one.
    pub(crate) fn complete(self) -> (batch: Option<Batch>)
        requires
            self.wf(),
            self.remaining() < isize::MAX,
        ensures
            batch_span(batch) == self.span(),
            batch_len(batch) <= self.len(),
            self.finished() ==> batch == self.outcome(),
            !self.finished() ==> batch is Some && batch->0@.since == self.target() && result_of(
                MergeState::Double(self),
                batch->0,
            ),
            forall|d: u64, q: u64| #![trigger batch_acc(batch, d, q)]
                self.settled(q) ==> congruent(batch_acc(batch, d, q), self.acc(d, q)),
    {
        let mut variant = self;
        let mut fuel: isize = isize::MAX;
        variant.work(&mut fuel);
        let ghost done = variant;
        match variant {
            MergeVariant::Complete(batch) => {
                proof {
                    assert forall|d: u64, q: u64| self.settled(q) implies congruent(
                        #[trigger] batch_acc(batch, d, q),
                        self.acc(d, q),
                    ) by {
                        assert(done.acc(d, q) == batch_acc(batch, d, q));
                    }
                }
                batch
            },
            MergeVariant::InProgress(_, _, _, _) => vstd::pervasive::unreached(),
        }
    }
}

impl MergeState {
    /// The size that the layer is accounted with at index `i`: nothing for a
    /// vacant layer, `2^i` for each batch or placeholder.
    pub(crate) open spec fn accounted(self, i: nat) -> int {
        match self {
            MergeState::Vacant => 0,
            MergeState::Single(_) => pow2(i) as int,
            MergeState::Double(_) => (2 * pow2(i)) as int,
        }
    }

    /// The number of updates that a merge in the layer has still to read.
    pub(crate) open spec fn remaining(self) -> int {
        match self {
            MergeState::Double(variant) => variant.remaining(),
            _ => 0,
        }
    }

    /// The lower and upper frontier of what the layer covers.
    pub(crate) open spec fn span(self) -> Option<(Seq<u64>, Seq<u64>)> {
        match self {
            MergeState::Vacant => None,
            MergeState::Single(batch) => batch_span(batch),
            MergeState::Double(variant) => variant.span(),
        }
    }

    /// The number of updates in the batches of the layer.
    pub(crate) open spec fn spec_len(self) -> int {
        match self {
            MergeState::Vacant => 0,
            MergeState::Single(batch) => batch_len(batch),
            MergeState::Double(variant) => variant.len(),
        }
    }

    /// What the batches of the layer accumulate for `data` up to `query`.
    pub(crate) open spec fn acc(self, data: u64, query: u64) -> int {
        match self {
            MergeState::Vacant => 0,
            MergeState::Single(batch) => batch_acc(batch, data, query),
            MergeState::Double(variant) => variant.acc(data, query),
        }
    }

    /// The query time is beyond the frontier of a merge in the layer.
    pub(crate) open spec fn settled(self, query: u64) -> bool {
        match self {
            MergeState::Double(variant) => variant.settled(query),
            _ => true,
        }
    }

    /// `after` accumulates what the layer accumulates, wherever the layer
    /// is settled.
    pub(crate) open spec fn kept_by(self, after: MergeState) -> bool {
        &&& forall|q: u64| self.settled(q) ==> #[trigger] after.settled(q)
        &&& forall|d: u64, q: u64|
            #![trigger after.acc(d, q)]
            self.settled(q) ==> congruent(after.acc(d, q), self.acc(d, q))
    }

    /// The layer may stand at index `i`: its batches are small enough for
    /// it, and its merge fits its batches.
    pub(crate) open spec fn fits(self, i: nat) -> bool {
        match self {
            MergeState::Vacant => true,
            MergeState::Single(batch) => batch_len(batch) <= pow2(i),
            MergeState::Double(variant) => {
                &&& variant.wf()
                &&& match variant {
                    MergeVariant::InProgress(b1, b2, _, _) => b1@.updates.len() <= pow2(i) && b2@.updates.len()
                        <= pow2(i),
                    MergeVariant::Complete(batch) => batch_len(batch) <= 2 * pow2(i),
                }
            },
        }
    }

    /// The layer holds nothing.
    pub(crate) open spec fn vacant(self) -> bool {
        self is Vacant
    }

    /// The layer holds one batch or placeholder.
    pub(crate) open spec fn single(self) -> bool {
        self is Single
    }

    /// The layer holds two batches or what their merge came to.
    pub(crate) open spec fn double(self) -> bool {
        self is Double
    }

    /// The layer holds a merge that needs no more work.
    pub(crate) open spec fn complete_merge(self) -> bool {
        self is Double && self->Double_0 is Complete
    }

    /// The number of updates in the layer.
    pub(crate) fn len(&self) -> (n: usize)
        requires
            self.spec_len() <= usize::MAX,
        ensures
            n == self.spec_len(),
    {
        match self {
            MergeState::Single(Some(b)) => b.len(),
            MergeState::Double(MergeVariant::InProgress(b1, b2, _, _)) => b1.len() + b2.len(),
            MergeState::Double(MergeVariant::Complete(Some(b))) => b.len(),
            _ => 0,
        }
    }

    /// Does the layer hold nothing?
    pub(crate) fn is_vacant(&self) -> (r: bool)
        ensures
            r == self.vacant(),
    {
        match self {
            MergeState::Vacant => true,
            _ => false,
        }
    }

    /// Does the layer hold a batch with a description, as opposed to
    /// nothing or a placeholder?
    pub(crate) fn non_trivial(&self) -> (r: bool)
        ensures
            r == (self.span() is Some),
    {
        match self {
            MergeState::Double(MergeVariant::Complete(None)) => false,
            MergeState::Single(None) => false,
            MergeState::Vacant => false,
            _ => true,
        }
    }

    /// Does the layer hold one batch or placeholder?
    pub(crate) fn is_single(&self) -> (r: bool)
        ensures
            r == self.single(),
    {
        match self {
            MergeState::Single(_) => true,
            _ => false,
        }
    }

    /// Does the layer hold two batches or what their merge came to?
    pub(crate) fn is_double(&self) -> (r: bool)
        ensures
            r == self.double(),
    {
        match self {
            MergeState::Double(_) => true,
            _ => false,
        }
    }

    /// Completes any merge of the layer at once and hands out what the
    /// layer holds; the layer is vacant afterwards.
    pub(crate) fn complete(&mut self) -> (batch: Option<Batch>)
        requires
            old(self).double() ==> old(self)->Double_0.wf() && old(self).remaining() < isize::MAX,
        ensures
            final(self).vacant(),
            batch_span(batch) == old(self).span(),
            batch_len(batch) <= old(self).spec_len(),
            old(self).single() ==> batch == old(self)->Single_0,
            handed(*old(self), batch),
            forall|d: u64, q: u64| #![trigger batch_acc(batch, d, q)]
                old(self).settled(q) ==> congruent(batch_acc(batch, d, q), old(self).acc(d, q)),
    {
        match self.take() {
            MergeState::Vacant => None,
            MergeState::Single(batch) => batch,
            MergeState::Double(variant) => variant.complete(),
        }
    }

    /// Does the layer hold a merge that needs no more work?
    pub(crate) fn is_complete(&self) -> (r: bool)
        ensures
            r == self.complete_merge(),
    {
        match self {
            MergeState::Double(MergeVariant::Complete(_)) => true,
            _ => false,
        }
    }

    /// Applies fuel to the merge of the layer, if it holds one.
    pub(crate) fn work(&mut self, fuel: &mut isize)
        requires
            old(self).double() ==> old(self)->Double_0.wf(),
        ensures
            worked(*old(self), *final(self), *old(fuel) as int),
    {
        match self.take() {
            MergeState::Double(layer) => {
                let mut layer = layer;
                layer.work(fuel);
                *self = MergeState::Double(layer);
            },
            other => {
                *self = other;
            },
        }
    }

    /// Takes out what the layer holds and leaves it vacant.
    pub(crate) fn take(&mut self) -> (state: MergeState)
        ensures
            state == *old(self),
            final(self).vacant(),
    {
        let mut state = MergeState::Vacant;
        core::mem::swap(self, &mut state);
        state
    }

    /// Puts a batch into a layer that holds at most one: a vacant layer
    /// then holds the batch, and a layer with a batch begins to merge the
    /// two.
    pub(crate) fn insert(&mut self, batch: Option<Batch>, frontier: Option<Vec<u64>>)
        requires
            !old(self).double(),
            old(self).single() && old(self)->Single_0 is Some && batch is Some ==> old(self)->Single_0->0@.upper
                == batch->0@.lower,
        ensures
            old(self).vacant() ==> *final(self) == MergeState::Single(batch),
            old(self).single() ==> begun(*final(self), old(self)->Single_0, batch, frontier),
    {
        match self.take() {
            MergeState::Vacant => {
                *self = MergeState::Single(batch);
            },
            MergeState::Single(old) => {
                *self = MergeState::begin_merge(old, batch, frontier);
            },
            MergeState::Double(_) => {
                proof {
                    assert(false);
                }
            },
        };
    }

    /// Begins to merge `batch1` with `batch2`, which follows it. Where
    /// either is a placeholder there is nothing to merge, and the merge is
    /// complete at once.
    pub(crate) fn begin_merge(batch1: Option<Batch>, batch2: Option<Batch>, frontier: Option<Vec<u64>>) -> (state:
        MergeState)
        requires
            batch1 is Some && batch2 is Some ==> batch1->0@.upper == batch2->0@.lower,
        ensures
            begun(state, batch1, batch2, frontier),
    {
        let variant = match (batch1, batch2) {
            (Some(batch1), Some(batch2)) => {
                let begin_merge = Batch::begin_merge(&batch1, &batch2);
                MergeVariant::InProgress(batch1, batch2, frontier, begin_merge)
            },
            (None, x) => MergeVariant::Complete(x),
            (x, None) => MergeVariant::Complete(x),
        };
        MergeState::Double(variant)
    }
}

/// The frontier to which the merge of a layer advances times, where the
/// layer holds a merge in progress.
pub(crate) open spec fn merging_to(layer: MergeState) -> Option<Seq<u64>> {
    match layer {
        MergeState::Double(MergeVariant::InProgress(_, _, frontier, _)) => Some(frontier_or_empty(frontier)),
        _ => None,
    }
}

/// `r` is what the merge in progress in the layer comes to: it lies between
/// the lower frontier of the first batch and the upper frontier of the
/// second, its `since` is the frontier of the merge, and its updates are
/// the consolidated updates of both batches with their times advanced to
/// that frontier, so that every time is beyond it.
pub(crate) open spec fn result_of(layer: MergeState, r: Batch) -> bool {
    match layer {
        MergeState::Double(MergeVariant::InProgress(b1, b2, frontier, _)) => {
            &&& r@.lower == b1@.lower
            &&& r@.upper == b2@.upper
            &&& r@.since == frontier_or_empty(frontier)
            &&& r@.updates == canonical(advanced(b1@.updates + b2@.updates, frontier_or_empty(frontier)))
            &&& times_beyond(r@.updates, frontier_or_empty(frontier))
        },
        _ => false,
    }
}

/// `batch` is what the layer hands out when it is completed: its one batch,
/// what its merge came to, or what its merge comes to, which is advanced to
/// the frontier of the merge.
pub(crate) open spec fn handed(before: MergeState, batch: Option<Batch>) -> bool {
    match before {
        MergeState::Vacant => batch is None,
        MergeState::Single(b) => batch == b,
        MergeState::Double(MergeVariant::Complete(b)) => batch == b,
        MergeState::Double(MergeVariant::InProgress(_, _, frontier, _)) => batch is Some && batch->0@.since
            == frontier_or_empty(frontier) && result_of(before, batch->0),
    }
}

/// `after` is what fuel makes of the layer `before`: a merge in progress
/// that has less to read than there is fuel is complete, any other has read
/// as many updates as there was fuel, and everything else is as it was.
pub(crate) open spec fn worked(before: MergeState, after: MergeState, fuel: int) -> bool {
    &&& before.kept_by(after)
    &&& !before.double() ==> after == before
    &&& before.double() ==> {
        &&& after.double()
        &&& after->Double_0.wf()
        &&& after.span() == before.span()
        &&& after.spec_len() <= before.spec_len()
        &&& before.complete_merge() ==> after == before
        &&& !before.complete_merge() && fuel > before.remaining() ==> after.complete_merge()
        &&& !before.complete_merge() && after.complete_merge() ==> after->Double_0.outcome() is Some
            && after->Double_0.outcome()->0@.since == merging_to(before)->0 && result_of(
            before,
            after->Double_0.outcome()->0,
        )
        &&& !before.complete_merge() && fuel <= before.remaining() ==> {
            &&& !after.complete_merge()
            &&& after->Double_0.parts() == before->Double_0.parts()
            &&& fuel > 0 ==> after.remaining() == before.remaining() - fuel
            &&& fuel <= 0 ==> after.remaining() == before.remaining()
        }
    }
}

/// Both are the same list of times, or both are none.
pub(crate) open spec fn same_frontier(a: Option<Vec<u64>>, b: Option<Vec<u64>>) -> bool {
    match (a, b) {
        (Some(x), Some(y)) => x@ == y@,
        (None, None) => true,
        _ => false,
    }
}

/// `state` is what a merge of `batch1` with `batch2` starts as: a merge in
/// progress that has read nothing where both are batches, and else a
/// complete merge that holds the one that is a batch, if any.
pub(crate) open spec fn begun(state: MergeState, batch1: Option<Batch>, batch2: Option<Batch>, frontier: Option<Vec<u64>>) -> bool {
    &&& state is Double
    &&& match (batch1, batch2) {
        (Some(b1), Some(b2)) => {
            &&& state->Double_0 is InProgress
            &&& state->Double_0->InProgress_0 == b1
            &&& state->Double_0->InProgress_1 == b2
            &&& same_frontier(state->Double_0->InProgress_2, frontier)
            &&& state->Double_0.wf()
            &&& state->Double_0.remaining() == b1@.updates.len() + b2@.updates.len()
        },
        (None, x) => state->Double_0 == MergeVariant::Complete(x),
        (x, None) => state->Double_0 == MergeVariant::Complete(x),
    }
}

/// The state that a layer is in after `batch` was put into it.
pub(crate) open spec fn placed(after: MergeState, before: MergeState, batch: Option<Batch>, frontier: Option<Vec<u64>>) -> bool {
    match before {
        MergeState::Vacant => after == MergeState::Single(batch),
        MergeState::Single(old) => begun(after, old, batch, frontier),
        MergeState::Double(_) => false,
    }
}

/// A merge in progress in the layer has read nothing yet and advances times
/// to `frontier`.
pub(crate) open spec fn fresh(layer: MergeState, frontier: Seq<u64>) -> bool {
    layer.double() && !layer.complete_merge() ==> layer.remaining() == layer.spec_len() && merging_to(layer) == Some(
        frontier,
    )
}

/// A merge that begins when a batch is put into a layer has read nothing.
pub(crate) proof fn lemma_placed_fresh(
    after: MergeState,
    before: MergeState,
    batch: Option<Batch>,
    frontier: Option<Vec<u64>>,
)
    requires
        placed(after, before, batch, frontier),
        frontier is Some,
    ensures
        fresh(after, frontier->0@),
{
}

/// The layer at `index`, vacant where the list is shorter.
pub(crate) open spec fn layer_at(layers: Seq<MergeState>, index: int) -> MergeState {
    if 0 <= index < layers.len() {
        layers[index]
    } else {
        MergeState::Vacant
    }
}

/// A merge that fits its layer has no negative number of updates to read.
pub(crate) proof fn lemma_remaining_nonnegative(layer: MergeState, i: nat)
    requires
        layer.fits(i),
    ensures
        0 <= layer.remaining() <= layer.spec_len(),
{
    match layer {
        MergeState::Double(MergeVariant::InProgress(b1, b2, frontier, merger)) => {
            merger.lemma_remaining_bounds(b1@, b2@, frontier_or_empty(frontier));
        },
        _ => {},
    }
}

/// A merge that has just begun has as much to read as its batches hold, and
/// fits any layer that its batches fit.
pub(crate) proof fn lemma_remaining_begun(state: MergeState, batch1: Option<Batch>, batch2: Option<Batch>, frontier: Option<Vec<u64>>)
    requires
        begun(state, batch1, batch2, frontier),
    ensures
        state.double(),
        state->Double_0.wf(),
        0 <= state.remaining() <= batch_len(batch1) + batch_len(batch2),
        state.spec_len() == batch_len(batch1) + batch_len(batch2),
        state.span() == match (batch1, batch2) {
            (Some(b1), Some(b2)) => Some((b1@.lower, b2@.upper)),
            (None, x) => batch_span(x),
            (x, None) => batch_span(x),
        },
{
}

} // verus!
