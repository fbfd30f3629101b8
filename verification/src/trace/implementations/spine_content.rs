//! What the layers of a spine accumulate.
//!
//! Merging changes how the updates are written down, and it advances
//! times, but at a query time beyond the frontiers in use it leaves the sum
//! of the differences of each data as it was. This module states that for a
//! list of layers and shows that the steps of the spine keep it.

use vstd::prelude::*;
use crate::trace::implementations::spine_order::tidied;
use crate::trace::implementations::spine_layers::worked;
use crate::trace::implementations::spine_layers::handed;
use crate::trace::implementations::spine_layers::merging_to;
use crate::consolidation::accumulated;
use crate::consolidation::canonical;
use crate::update::advanced;
use crate::update::times_beyond;
use crate::trace::implementations::spine_order::first_occupied;
use crate::trace::implementations::spine_order::lemma_first_occupied;
use crate::trace::implementations::spine_order::vacant_below;
use crate::trace::implementations::spine_order::vacant_under;
use crate::trace::implementations::spine_layers::fresh;
use crate::trace::implementations::spine_layers::lemma_placed_fresh;
use crate::consolidation::lemma_accumulated_concat;
use crate::difference::congruent;
use crate::lattice::beyond;
use crate::trace::batch::Batch;
use crate::trace::cursor::concat_updates;
use crate::trace::implementations::spine_layers::MergeState;
use crate::trace::implementations::spine_layers::MergeVariant;
use crate::trace::implementations::spine_layers::batch_acc;
use crate::trace::implementations::spine_layers::layer_at;
use crate::trace::implementations::spine_layers::placed;
use crate::trace::implementations::spine_order::below;

verus! {

/// The batches of a layer, the older first.
pub(crate) open spec fn layer_live(layer: MergeState) -> Seq<Batch> {
    match layer {
        MergeState::Single(Some(b)) => seq![b],
        MergeState::Double(MergeVariant::InProgress(b1, b2, _, _)) => seq![b1, b2],
        MergeState::Double(MergeVariant::Complete(Some(b))) => seq![b],
        _ => Seq::empty(),
    }
}

/// Below layer `index` one layer holds anything, which is a batch, and
/// layer `index` holds one batch.
#[verifier::opaque]
pub(crate) open spec fn folds_one(layers: Seq<MergeState>, index: int) -> bool {
    let j = first_occupied(layers, 0);
    &&& 0 <= j < index < layers.len()
    &&& first_occupied(layers, j + 1) == index
    &&& layers[j].single()
    &&& layers[j]->Single_0 is Some
    &&& layers[index].single()
    &&& layers[index]->Single_0 is Some
}

/// `r` is what merging `b1` with `b2` towards `frontier` comes to.
pub(crate) open spec fn joined(r: Batch, b1: Batch, b2: Batch, frontier: Seq<u64>) -> bool {
    &&& r@.lower == b1@.lower
    &&& r@.upper == b2@.upper
    &&& r@.since == frontier
    &&& r@.updates == canonical(advanced(b1@.updates + b2@.updates, frontier))
    &&& times_beyond(r@.updates, frontier)
}

/// Where one batch below layer `index` is rolled up into the one batch of
/// that layer, the newest batch of the layer above is what merging the two
/// towards `advance` comes to.
#[verifier::opaque]
pub(crate) open spec fn folded_one(before: Seq<MergeState>, after: Seq<MergeState>, index: int, advance: Seq<u64>) -> bool {
    folds_one(before, index) ==> {
        &&& index + 1 < after.len()
        &&& layer_live(after[index + 1]).len() > 0
        &&& joined(
            layer_live(after[index + 1]).last(),
            before[index]->Single_0->0,
            before[first_occupied(before, 0)]->Single_0->0,
            advance,
        )
    }
}

/// Where one batch below layer `index` is to be rolled up, the layer is
/// there and a layer below it is not vacant.
pub(crate) proof fn lemma_folds_one(layers: Seq<MergeState>, index: int)
    requires
        folds_one(layers, index),
    ensures
        0 <= index < layers.len(),
        !vacant_below(layers, index),
{
    reveal(folds_one);
    lemma_first_occupied(layers, 0);
    assert(!layers[first_occupied(layers, 0)].vacant());
}

/// Where one batch below layer `index` is rolled up, the layer holds two
/// batches once the batch is put into it.
pub(crate) proof fn lemma_folds_double(
    whole: Seq<MergeState>,
    put: MergeState,
    index: int,
    merge: Option<Batch>,
    frontier: Option<Vec<u64>>,
)
    requires
        folds_one(whole, index),
        placed(put, whole[index], merge, frontier),
    ensures
        put.double(),
{
    reveal(folds_one);
}

/// Where nothing is to be rolled up into a batch, nothing is said of what
/// comes of it.
pub(crate) proof fn lemma_folded_none(before: Seq<MergeState>, after: Seq<MergeState>, index: int, advance: Seq<u64>)
    requires
        !folds_one(before, index),
    ensures
        folded_one(before, after, index, advance),
{
    reveal(folded_one);
}

/// One batch from below layer `index` was put into the layer, the merge
/// with the batch of the layer was completed, and what it came to was put
/// into the layer above: it is the newest batch there.
pub(crate) proof fn lemma_folded_one(
    whole: Seq<MergeState>,
    put: MergeState,
    last: Seq<MergeState>,
    index: int,
    merge: Option<Batch>,
    merged: Option<Batch>,
    frontier: Option<Vec<u64>>,
    advance: Seq<u64>,
)
    requires
        0 <= index < whole.len(),
        folds_one(whole, index) ==> merge == whole[first_occupied(whole, 0)]->Single_0,
        frontier is Some && frontier->0@ == advance,
        placed(put, whole[index], merge, frontier),
        handed(put, merged),
        index + 1 < last.len(),
        placed(last[index + 1], layer_at(whole, index + 1), merged, frontier),
    ensures
        folded_one(whole, last, index, advance),
{
    reveal(folds_one);
    reveal(folded_one);
    if folds_one(whole, index) {
        let r = merged->0;
        assert(merged is Some);
        match layer_at(whole, index + 1) {
            MergeState::Vacant => {
                assert(layer_live(last[index + 1]) =~= seq![r]);
            },
            MergeState::Single(Some(o)) => {
                assert(layer_live(last[index + 1]) =~= seq![o, r]);
            },
            MergeState::Single(None) => {
                assert(layer_live(last[index + 1]) =~= seq![r]);
            },
            MergeState::Double(_) => {},
        }
    }
}

/// `whole` is the list `first`, made longer with vacant layers where it was
/// too short for layer `index`.
pub(crate) open spec fn lengthened(first: Seq<MergeState>, whole: Seq<MergeState>, index: int) -> bool {
    &&& 0 <= index < whole.len()
    &&& whole.len() >= first.len()
    &&& whole.len() <= index + 1 || whole.len() == first.len()
    &&& forall|j: int| 0 <= j < whole.len() ==> #[trigger] whole[j] == layer_at(first, j)
}

/// What rolling up the layers below `index` makes of the layers `first`.
/// Where nothing stood below the layer, nothing has changed. Where
/// something did and the layer held nothing, it holds one batch; where it
/// held one batch, it is vacant and the layer above is not. A merge in
/// progress in the layer above has read nothing and advances times to
/// `advance`.
#[verifier::opaque]
pub(crate) open spec fn rolled(first: Seq<MergeState>, last: Seq<MergeState>, index: int, advance: Seq<u64>) -> bool {
    &&& vacant_under(first, index) ==> forall|j: int| 0 <= j < last.len() ==> #[trigger] last[j] == layer_at(first, j)
    &&& vacant_under(first, index) && index < first.len() ==> last.len() == first.len()
    &&& folded_one(first, last, index, advance)
    &&& index + 1 < last.len() ==> fresh(last[index + 1], advance)
    &&& !vacant_under(first, index) && layer_at(first, index).vacant() ==> last[index].single()
    &&& !vacant_under(first, index) && layer_at(first, index).single() ==> last[index].vacant() && index + 1
        < last.len() && !last[index + 1].vacant()
}

/// Nothing stood below the layer: nothing was rolled up.
pub(crate) proof fn lemma_rolled_none(first: Seq<MergeState>, whole: Seq<MergeState>, index: int, advance: Seq<u64>)
    requires
        lengthened(first, whole, index),
        vacant_below(whole, index),
        !layer_at(whole, index + 1).double(),
    ensures
        rolled(first, whole, index, advance),
{
    reveal(rolled);
    assert(vacant_under(first, index)) by {
        assert forall|j: int| 0 <= j < index && j < first.len() implies (#[trigger] first[j]).vacant() by {
            assert(whole[j] == layer_at(first, j));
            assert(whole[j].vacant());
        }
    }
    if folds_one(first, index) {
        lemma_folds_one(first, index);
        assert(vacant_below(first, index)) by {
            assert forall|j: int| 0 <= j < index implies (#[trigger] first[j]).vacant() by {}
        }
    } else {
        lemma_folded_none(first, whole, index, advance);
    }
}

/// What was rolled up was put into a layer that held nothing.
pub(crate) proof fn lemma_rolled_put(
    first: Seq<MergeState>,
    whole: Seq<MergeState>,
    put: Seq<MergeState>,
    index: int,
    merge: Option<Batch>,
    frontier: Option<Vec<u64>>,
    advance: Seq<u64>,
)
    requires
        lengthened(first, whole, index),
        !vacant_under(first, index),
        put.len() == whole.len(),
        forall|j: int| index < j < put.len() ==> #[trigger] put[j] == whole[j],
        placed(put[index], whole[index], merge, frontier),
        !put[index].double(),
        !layer_at(whole, index + 1).double(),
    ensures
        rolled(first, put, index, advance),
{
    reveal(rolled);
    assert(whole[index] == layer_at(first, index));
    if folds_one(first, index) {
        lemma_folds_one(first, index);
        assert(whole =~= first);
        lemma_folds_double(whole, put[index], index, merge, frontier);
    } else {
        lemma_folded_none(first, put, index, advance);
    }
}

/// What was rolled up was merged at once with the batch of the layer, and
/// what the merge came to was put into the layer above.
pub(crate) proof fn lemma_rolled_raised(
    first: Seq<MergeState>,
    whole: Seq<MergeState>,
    put: MergeState,
    last: Seq<MergeState>,
    index: int,
    merge: Option<Batch>,
    merged: Option<Batch>,
    frontier: Option<Vec<u64>>,
    advance: Seq<u64>,
)
    requires
        lengthened(first, whole, index),
        !vacant_under(first, index),
        folds_one(whole, index) ==> merge == whole[first_occupied(whole, 0)]->Single_0,
        frontier is Some && frontier->0@ == advance,
        placed(put, whole[index], merge, frontier),
        put.double(),
        handed(put, merged),
        index + 1 < last.len(),
        placed(last[index + 1], layer_at(whole, index + 1), merged, frontier),
        !layer_at(whole, index + 1).double(),
        last[index].vacant(),
    ensures
        rolled(first, last, index, advance),
{
    reveal(rolled);
    assert(whole[index] == layer_at(first, index));
    lemma_placed_fresh(last[index + 1], layer_at(whole, index + 1), merged, frontier);
    if folds_one(first, index) {
        lemma_folds_one(first, index);
        assert(whole =~= first);
        lemma_folded_one(whole, put, last, index, merge, merged, frontier, advance);
    } else {
        lemma_folded_none(first, last, index, advance);
    }
}

/// The batches of the layers below `m`, the highest layer first.
pub(crate) open spec fn merged_live(layers: Seq<MergeState>, m: int) -> Seq<Batch>
    decreases m,
{
    if m <= 0 {
        Seq::empty()
    } else {
        layer_live(layers[m - 1]) + merged_live(layers, m - 1)
    }
}

/// What the batches accumulate for `data` up to `query`.
pub open spec fn accumulated_all(batches: Seq<Batch>, data: u64, query: u64) -> int
    decreases batches.len(),
{
    if batches.len() == 0 {
        0
    } else {
        accumulated_all(batches.drop_last(), data, query) + accumulated(batches.last()@.updates, data, query)
    }
}

/// What the batches of the layers below `m` accumulate for `data` up to
/// `query`.
pub(crate) open spec fn layers_acc(layers: Seq<MergeState>, m: int, data: u64, query: u64) -> int
    decreases m,
{
    if m <= 0 {
        0
    } else {
        layers_acc(layers, m - 1, data, query) + layers[m - 1].acc(data, query)
    }
}

/// The query time is beyond the advance frontier and beyond the frontier of
/// every merge in progress: no merge changes what is accumulated there.
pub(crate) open spec fn quiet(layers: Seq<MergeState>, advance: Seq<u64>, query: u64) -> bool {
    &&& beyond(advance, query)
    &&& forall|i: int| 0 <= i < layers.len() ==> (#[trigger] layers[i]).settled(query)
}

/// The layers `after`, with the batch in `hand`, accumulate what the layers
/// `before` and the batch `added` accumulate, at every query time at which
/// the layers `before` are quiet; and there the layers `after` are quiet.
#[verifier::opaque]
pub(crate) open spec fn balanced(
    before: Seq<MergeState>,
    after: Seq<MergeState>,
    advance: Seq<u64>,
    hand: Option<Batch>,
    added: Option<Batch>,
) -> bool {
    &&& forall|q: u64| quiet(before, advance, q) ==> #[trigger] quiet(after, advance, q)
    &&& forall|d: u64, q: u64|
        #![trigger layers_acc(after, after.len() as int, d, q)]
        quiet(before, advance, q) ==> congruent(
            layers_acc(after, after.len() as int, d, q) + batch_acc(hand, d, q),
            layers_acc(before, before.len() as int, d, q) + batch_acc(added, d, q),
        )
}

/// The updates of all batches, one batch after the other, accumulate what
/// the batches accumulate.
pub proof fn lemma_concat_accumulated(storage: Seq<Batch>, d: u64, q: u64)
    ensures
        accumulated(concat_updates(storage), d, q) == accumulated_all(storage, d, q),
    decreases storage.len(),
{
    if storage.len() > 0 {
        lemma_concat_accumulated(storage.drop_last(), d, q);
        lemma_accumulated_concat(concat_updates(storage.drop_last()), storage.last()@.updates);
    }
}

/// The first batch and the others accumulate what all accumulate.
pub(crate) proof fn lemma_accumulated_all_first(batches: Seq<Batch>, d: u64, q: u64)
    requires
        batches.len() > 0,
    ensures
        accumulated_all(batches, d, q) == accumulated(batches[0]@.updates, d, q) + accumulated_all(
            batches.skip(1),
            d,
            q,
        ),
    decreases batches.len(),
{
    if batches.len() == 1 {
        assert(batches.drop_last() =~= batches.skip(1));
        assert(accumulated_all(batches.skip(1), d, q) == 0);
        assert(batches.last() == batches[0]);
    } else {
        lemma_accumulated_all_first(batches.drop_last(), d, q);
        assert(batches.drop_last().skip(1) =~= batches.skip(1).drop_last());
        assert(batches.skip(1).last() == batches.last());
        assert(batches.drop_last()[0] == batches[0]);
    }
}

/// Two lists of batches accumulate together what each accumulates.
pub proof fn lemma_accumulated_all_concat(a: Seq<Batch>, b: Seq<Batch>, d: u64, q: u64)
    ensures
        accumulated_all(a + b, d, q) == accumulated_all(a, d, q) + accumulated_all(b, d, q),
    decreases b.len(),
{
    if b.len() == 0 {
        assert(a + b =~= a);
    } else {
        lemma_accumulated_all_concat(a, b.drop_last(), d, q);
        assert((a + b).drop_last() =~= a + b.drop_last());
        assert((a + b).last() == b.last());
    }
}

/// The layers accumulate what their batches accumulate.
pub(crate) proof fn lemma_layers_acc_live(layers: Seq<MergeState>, m: int, d: u64, q: u64)
    requires
        0 <= m <= layers.len(),
    ensures
        layers_acc(layers, m, d, q) == accumulated_all(merged_live(layers, m), d, q),
    decreases m,
{
    if m > 0 {
        lemma_layers_acc_live(layers, m - 1, d, q);
        let top = layer_live(layers[m - 1]);
        lemma_accumulated_all_concat(top, merged_live(layers, m - 1), d, q);
        match layers[m - 1] {
            MergeState::Single(Some(b)) => {
                assert(top.drop_last() =~= Seq::<Batch>::empty());
                assert(accumulated_all(top.drop_last(), d, q) == 0);
            },
            MergeState::Double(MergeVariant::InProgress(b1, b2, _, _)) => {
                assert(top.drop_last() =~= seq![b1]);
                assert(seq![b1].drop_last() =~= Seq::<Batch>::empty());
                assert(accumulated_all(seq![b1].drop_last(), d, q) == 0);
                assert(accumulated_all(seq![b1], d, q) == accumulated(b1@.updates, d, q));
            },
            MergeState::Double(MergeVariant::Complete(Some(b))) => {
                assert(top.drop_last() =~= Seq::<Batch>::empty());
                assert(accumulated_all(top.drop_last(), d, q) == 0);
            },
            _ => {
                assert(accumulated_all(top, d, q) == 0);
            },
        }
    }
}

/// Layers that accumulate alike below `m` come to the same there.
pub(crate) proof fn lemma_acc_agree(a: Seq<MergeState>, b: Seq<MergeState>, m: int, d: u64, q: u64)
    requires
        forall|j: int| 0 <= j < m ==> (#[trigger] a[j]).acc(d, q) == (#[trigger] b[j]).acc(d, q),
    ensures
        layers_acc(a, m, d, q) == layers_acc(b, m, d, q),
    decreases m,
{
    if m > 0 {
        lemma_acc_agree(a, b, m - 1, d, q);
    }
}

/// Where one layer differs, the sums differ by what that layer differs.
pub(crate) proof fn lemma_acc_update(before: Seq<MergeState>, after: Seq<MergeState>, i: int, m: int, d: u64, q: u64)
    requires
        0 <= i < m <= before.len(),
        after.len() == before.len(),
        forall|j: int| 0 <= j < before.len() && j != i ==> #[trigger] after[j] == before[j],
    ensures
        layers_acc(after, m, d, q) == layers_acc(before, m, d, q) - before[i].acc(d, q) + after[i].acc(d, q),
    decreases m,
{
    if m - 1 == i {
        assert forall|j: int| 0 <= j < i implies (#[trigger] after[j]).acc(d, q) == (#[trigger] before[j]).acc(d, q) by {
            assert(after[j] == before[j]);
        }
        lemma_acc_agree(after, before, i, d, q);
    } else {
        lemma_acc_update(before, after, i, m - 1, d, q);
        assert(after[m - 1] == before[m - 1]);
    }
}

/// Vacant layers on top of a list accumulate nothing.
pub(crate) proof fn lemma_acc_extended(short: Seq<MergeState>, long: Seq<MergeState>, m: int, d: u64, q: u64)
    requires
        short.len() <= long.len(),
        forall|j: int| 0 <= j < long.len() ==> #[trigger] long[j] == layer_at(short, j),
        0 <= m <= long.len(),
    ensures
        layers_acc(long, m, d, q) == layers_acc(short, if m <= short.len() {
            m
        } else {
            short.len() as int
        }, d, q),
    decreases m,
{
    if m > 0 {
        lemma_acc_extended(short, long, m - 1, d, q);
        assert(long[m - 1] == layer_at(short, m - 1));
    }
}

/// Layers are balanced with themselves.
pub(crate) proof fn lemma_balanced_refl(layers: Seq<MergeState>, advance: Seq<u64>)
    ensures
        balanced(layers, layers, advance, None, None),
{
    reveal(balanced);
}

/// Vacant layers on top of a list leave the balance.
pub(crate) proof fn lemma_balanced_extended(
    before: Seq<MergeState>,
    short: Seq<MergeState>,
    long: Seq<MergeState>,
    advance: Seq<u64>,
    hand: Option<Batch>,
    added: Option<Batch>,
)
    requires
        balanced(before, short, advance, hand, added),
        short.len() <= long.len(),
        forall|j: int| 0 <= j < long.len() ==> #[trigger] long[j] == layer_at(short, j),
    ensures
        balanced(before, long, advance, hand, added),
{
    reveal(balanced);
    assert forall|d: u64, q: u64|
        #![trigger layers_acc(long, long.len() as int, d, q)]
        quiet(before, advance, q) implies congruent(
        layers_acc(long, long.len() as int, d, q) + batch_acc(hand, d, q),
        layers_acc(before, before.len() as int, d, q) + batch_acc(added, d, q),
    ) by {
        lemma_acc_extended(short, long, long.len() as int, d, q);
        assert(congruent(
            layers_acc(short, short.len() as int, d, q) + batch_acc(hand, d, q),
            layers_acc(before, before.len() as int, d, q) + batch_acc(added, d, q),
        ));
    }
    assert forall|q: u64| quiet(before, advance, q) implies #[trigger] quiet(long, advance, q) by {
        assert(quiet(short, advance, q));
        assert forall|i: int| 0 <= i < long.len() implies (#[trigger] long[i]).settled(q) by {
            assert(long[i] == layer_at(short, i));
            if i < short.len() {
                assert(short[i].settled(q));
            }
        }
    }
}

/// A layer that is replaced by one that accumulates the same leaves the
/// balance.
pub(crate) proof fn lemma_balanced_kept(
    before: Seq<MergeState>,
    cur: Seq<MergeState>,
    next: Seq<MergeState>,
    advance: Seq<u64>,
    hand: Option<Batch>,
    added: Option<Batch>,
    i: int,
)
    requires
        balanced(before, cur, advance, hand, added),
        0 <= i < cur.len(),
        next.len() == cur.len(),
        forall|j: int| 0 <= j < cur.len() && j != i ==> #[trigger] next[j] == cur[j],
        cur[i].kept_by(next[i]),
    ensures
        balanced(before, next, advance, hand, added),
{
    reveal(balanced);
    assert forall|d: u64, q: u64|
        #![trigger layers_acc(next, next.len() as int, d, q)]
        quiet(before, advance, q) implies congruent(
        layers_acc(next, next.len() as int, d, q) + batch_acc(hand, d, q),
        layers_acc(before, before.len() as int, d, q) + batch_acc(added, d, q),
    ) by {
        lemma_acc_update(cur, next, i, cur.len() as int, d, q);
        assert(congruent(
            layers_acc(cur, cur.len() as int, d, q) + batch_acc(hand, d, q),
            layers_acc(before, before.len() as int, d, q) + batch_acc(added, d, q),
        ));
        assert(quiet(cur, advance, q));
        assert(cur[i].settled(q));
        assert(congruent(next[i].acc(d, q), cur[i].acc(d, q)));
    }
    assert forall|q: u64| quiet(before, advance, q) implies #[trigger] quiet(next, advance, q) by {
        assert(quiet(cur, advance, q));
        assert(cur[i].settled(q));
        assert forall|k: int| 0 <= k < next.len() implies (#[trigger] next[k]).settled(q) by {
            if k != i {
                assert(next[k] == cur[k]);
                assert(cur[k].settled(q));
            }
        }
    }
}

/// Taking what a layer holds into the hand, merged with what the hand
/// held, leaves the balance.
pub(crate) proof fn lemma_balanced_taken(
    before: Seq<MergeState>,
    cur: Seq<MergeState>,
    next: Seq<MergeState>,
    advance: Seq<u64>,
    hand: Option<Batch>,
    held: Option<Batch>,
    added: Option<Batch>,
    i: int,
)
    requires
        balanced(before, cur, advance, hand, added),
        0 <= i < cur.len(),
        next.len() == cur.len(),
        forall|j: int| 0 <= j < cur.len() && j != i ==> #[trigger] next[j] == cur[j],
        next[i].vacant(),
        forall|d: u64, q: u64| #![trigger batch_acc(held, d, q)]
            cur[i].settled(q) ==> congruent(batch_acc(held, d, q), batch_acc(hand, d, q) + cur[i].acc(d, q)),
    ensures
        balanced(before, next, advance, held, added),
{
    reveal(balanced);
    assert forall|d: u64, q: u64|
        #![trigger layers_acc(next, next.len() as int, d, q)]
        quiet(before, advance, q) implies congruent(
        layers_acc(next, next.len() as int, d, q) + batch_acc(held, d, q),
        layers_acc(before, before.len() as int, d, q) + batch_acc(added, d, q),
    ) by {
        lemma_acc_update(cur, next, i, cur.len() as int, d, q);
        assert(congruent(
            layers_acc(cur, cur.len() as int, d, q) + batch_acc(hand, d, q),
            layers_acc(before, before.len() as int, d, q) + batch_acc(added, d, q),
        ));
        assert(quiet(cur, advance, q));
        assert(cur[i].settled(q));
        assert(congruent(batch_acc(held, d, q), batch_acc(hand, d, q) + cur[i].acc(d, q)));
    }
    assert forall|q: u64| quiet(before, advance, q) implies #[trigger] quiet(next, advance, q) by {
        assert(quiet(cur, advance, q));
        assert forall|k: int| 0 <= k < next.len() implies (#[trigger] next[k]).settled(q) by {
            if k != i {
                assert(next[k] == cur[k]);
                assert(cur[k].settled(q));
            }
        }
    }
}

/// Putting a batch into a layer: the batch in the hand, which is then
/// empty, or a batch from outside, which is then added.
pub(crate) proof fn lemma_balanced_put(
    before: Seq<MergeState>,
    cur: Seq<MergeState>,
    next: Seq<MergeState>,
    advance: Seq<u64>,
    hand: Option<Batch>,
    added: Option<Batch>,
    x: Option<Batch>,
    frontier: Option<Vec<u64>>,
    from_hand: bool,
    i: int,
)
    requires
        balanced(before, cur, advance, hand, added),
        0 <= i < next.len(),
        next.len() == (if cur.len() > i {
            cur.len() as int
        } else {
            i + 1
        }),
        forall|j: int| 0 <= j < next.len() && j != i ==> #[trigger] next[j] == layer_at(cur, j),
        placed(next[i], layer_at(cur, i), x, frontier),
        frontier is None || frontier->0@ == advance,
        from_hand ==> hand == x,
        !from_hand ==> added is None,
    ensures
        balanced(before, next, advance, if from_hand {
            None
        } else {
            hand
        }, if from_hand {
            added
        } else {
            x
        }),
{
    reveal(balanced);
    let long = Seq::new(next.len(), |j: int| layer_at(cur, j));
    lemma_balanced_extended(before, cur, long, advance, hand, added);
    let hand2: Option<Batch> = if from_hand {
        None
    } else {
        hand
    };
    let added2 = if from_hand {
        added
    } else {
        x
    };
    assert forall|d: u64, q: u64|
        #![trigger layers_acc(next, next.len() as int, d, q)]
        quiet(before, advance, q) implies congruent(
        layers_acc(next, next.len() as int, d, q) + batch_acc(hand2, d, q),
        layers_acc(before, before.len() as int, d, q) + batch_acc(added2, d, q),
    ) by {
        assert forall|j: int| 0 <= j < long.len() && j != i implies #[trigger] next[j] == long[j] by {}
        lemma_acc_update(long, next, i, long.len() as int, d, q);
        assert(congruent(
            layers_acc(long, long.len() as int, d, q) + batch_acc(hand, d, q),
            layers_acc(before, before.len() as int, d, q) + batch_acc(added, d, q),
        ));
        assert(next[i].acc(d, q) == long[i].acc(d, q) + batch_acc(x, d, q));
    }
    assert forall|q: u64| quiet(before, advance, q) implies #[trigger] quiet(next, advance, q) by {
        assert(quiet(long, advance, q));
        assert forall|k: int| 0 <= k < next.len() implies (#[trigger] next[k]).settled(q) by {
            if k != i {
                assert(next[k] == long[k]);
                assert(long[k].settled(q));
            }
        }
    }
}

/// Moving the one batch of the highest layer into the vacant layer below
/// leaves the balance.
pub(crate) proof fn lemma_balanced_tidied(
    before: Seq<MergeState>,
    cur: Seq<MergeState>,
    next: Seq<MergeState>,
    advance: Seq<u64>,
    added: Option<Batch>,
)
    requires
        balanced(before, cur, advance, None, added),
        cur.len() >= 2,
        cur[cur.len() - 2].vacant(),
        next.len() == cur.len() - 1,
        forall|j: int| 0 <= j < cur.len() - 2 ==> #[trigger] next[j] == cur[j],
        next[cur.len() - 2] == cur[cur.len() - 1],
    ensures
        balanced(before, next, advance, None, added),
{
    reveal(balanced);
    let top = cur.len() - 1;
    assert forall|d: u64, q: u64|
        #![trigger layers_acc(next, next.len() as int, d, q)]
        quiet(before, advance, q) implies congruent(
        layers_acc(next, next.len() as int, d, q) + batch_acc(None, d, q),
        layers_acc(before, before.len() as int, d, q) + batch_acc(added, d, q),
    ) by {
        assert(congruent(
            layers_acc(cur, cur.len() as int, d, q) + batch_acc(None, d, q),
            layers_acc(before, before.len() as int, d, q) + batch_acc(added, d, q),
        ));
        assert forall|j: int| 0 <= j < top - 1 implies (#[trigger] next[j]).acc(d, q) == (#[trigger] cur[j]).acc(d, q) by {
            assert(next[j] == cur[j]);
        }
        lemma_acc_agree(next, cur, top - 1, d, q);
        assert(layers_acc(cur, top + 1, d, q) == layers_acc(cur, top, d, q) + cur[top].acc(d, q));
        assert(layers_acc(cur, top, d, q) == layers_acc(cur, top - 1, d, q) + cur[top - 1].acc(d, q));
        assert(layers_acc(next, top, d, q) == layers_acc(next, top - 1, d, q) + next[top - 1].acc(d, q));
    }
    assert forall|q: u64| quiet(before, advance, q) implies #[trigger] quiet(next, advance, q) by {
        assert(quiet(cur, advance, q));
        assert forall|k: int| 0 <= k < next.len() implies (#[trigger] next[k]).settled(q) by {
            if k < top - 1 {
                assert(next[k] == cur[k]);
                assert(cur[k].settled(q));
            } else {
                assert(cur[top].settled(q));
            }
        }
    }
}

/// The newest batch of the layers is the newest batch of the lowest layer
/// that holds one.
pub(crate) proof fn lemma_merged_last(layers: Seq<MergeState>, j: int, m: int)
    requires
        0 <= j < m <= layers.len(),
        forall|i: int| 0 <= i < j ==> (#[trigger] layers[i]).vacant(),
        layer_live(layers[j]).len() > 0,
    ensures
        merged_live(layers, m).len() > 0,
        merged_live(layers, m).last() == layer_live(layers[j]).last(),
    decreases m,
{
    if m == j + 1 {
        lemma_merged_vacant(layers, j);
        assert(merged_live(layers, m) =~= layer_live(layers[j]));
    } else {
        lemma_merged_last(layers, j, m - 1);
        let top = layer_live(layers[m - 1]);
        let rest = merged_live(layers, m - 1);
        assert((top + rest).last() == rest.last());
    }
}

/// Vacant layers hold no batches.
pub(crate) proof fn lemma_merged_vacant(layers: Seq<MergeState>, m: int)
    requires
        0 <= m <= layers.len(),
        forall|i: int| 0 <= i < m ==> (#[trigger] layers[i]).vacant(),
    ensures
        merged_live(layers, m) == Seq::<Batch>::empty(),
    decreases m,
{
    if m > 0 {
        lemma_merged_vacant(layers, m - 1);
        assert(layers[m - 1].vacant());
        assert(merged_live(layers, m) =~= Seq::<Batch>::empty());
    }
}

/// Where the batch `b` comes from: it was in the layers `before`, or it
/// is the batch `added`, or it came out of a merge, and then its times are
/// advanced to the advance frontier, to the frontier of a merge that was in
/// progress in the layers `before`, or, where lower layers were rolled up,
/// to the empty frontier.
pub(crate) open spec fn known(b: Batch, before: Seq<MergeState>, advance: Seq<u64>, added: Option<Batch>) -> bool {
    ||| exists|m: int, i: int|
        0 <= m < before.len() && 0 <= i < layer_live(before[m]).len() && #[trigger] layer_live(before[m])[i] == b
    ||| added == Some(b)
    ||| b@.since == advance
    ||| b@.since == Seq::<u64>::empty()
    ||| exists|m: int| 0 <= m < before.len() && #[trigger] merging_to(before[m]) == Some(b@.since)
}

/// Every merge in progress in the layers `after` advances times to the
/// advance frontier, unless it was in progress in the layers `before`; and
/// it is known where every batch of the layers `after`, and the batch in
/// `hand`, comes from.
#[verifier::opaque]
pub(crate) open spec fn sourced(
    before: Seq<MergeState>,
    after: Seq<MergeState>,
    advance: Seq<u64>,
    hand: Option<Batch>,
    added: Option<Batch>,
) -> bool {
    &&& forall|m: int|
        0 <= m < after.len() && merging_to(#[trigger] after[m]) is Some ==> merging_to(after[m]) == Some(advance)
            || (m < before.len() && merging_to(before[m]) == merging_to(after[m]))
    &&& forall|m: int, i: int|
        0 <= m < after.len() && 0 <= i < layer_live(after[m]).len() ==> known(
            #[trigger] layer_live(after[m])[i],
            before,
            advance,
            added,
        )
    &&& hand is Some ==> known(hand->0, before, advance, added)
}

/// It is known where the batches of layers come from that have not
/// changed.
pub(crate) proof fn lemma_sourced_refl(layers: Seq<MergeState>, advance: Seq<u64>, added: Option<Batch>)
    ensures
        sourced(layers, layers, advance, None, added),
{
    reveal(sourced);
}

/// Vacant layers on top of a list bring no batches.
pub(crate) proof fn lemma_sourced_extended(
    before: Seq<MergeState>,
    short: Seq<MergeState>,
    long: Seq<MergeState>,
    advance: Seq<u64>,
    hand: Option<Batch>,
    added: Option<Batch>,
)
    requires
        sourced(before, short, advance, hand, added),
        short.len() <= long.len(),
        forall|j: int| 0 <= j < long.len() ==> #[trigger] long[j] == layer_at(short, j),
    ensures
        sourced(before, long, advance, hand, added),
{
    reveal(sourced);
    assert forall|m: int| 0 <= m < long.len() && merging_to(#[trigger] long[m]) is Some implies merging_to(long[m])
        == Some(advance) || (m < before.len() && merging_to(before[m]) == merging_to(long[m])) by {
        assert(long[m] == layer_at(short, m));
        assert(m < short.len());
        assert(merging_to(short[m]) is Some);
    }
    assert forall|m: int, i: int| 0 <= m < long.len() && 0 <= i < layer_live(long[m]).len() implies known(
        #[trigger] layer_live(long[m])[i],
        before,
        advance,
        added,
    ) by {
        assert(long[m] == layer_at(short, m));
        assert(m < short.len());
        assert(known(layer_live(short[m])[i], before, advance, added));
    }
}

/// A layer to which fuel was applied holds the batches it held, or what
/// its merge came to, advanced to the frontier of the merge.
pub(crate) proof fn lemma_sourced_kept(
    before: Seq<MergeState>,
    cur: Seq<MergeState>,
    next: Seq<MergeState>,
    advance: Seq<u64>,
    hand: Option<Batch>,
    added: Option<Batch>,
    i: int,
    fuel: int,
)
    requires
        sourced(before, cur, advance, hand, added),
        0 <= i < cur.len(),
        next.len() == cur.len(),
        forall|j: int| 0 <= j < cur.len() && j != i ==> #[trigger] next[j] == cur[j],
        worked(cur[i], next[i], fuel),
    ensures
        sourced(before, next, advance, hand, added),
{
    reveal(sourced);
    assert(merging_to(cur[i]) is Some ==> merging_to(cur[i]) == Some(advance) || (i < before.len() && merging_to(
        before[i],
    ) == merging_to(cur[i])));
    assert forall|m: int| 0 <= m < next.len() && merging_to(#[trigger] next[m]) is Some implies merging_to(next[m])
        == Some(advance) || (m < before.len() && merging_to(before[m]) == merging_to(next[m])) by {
        if m != i {
            assert(next[m] == cur[m]);
            assert(merging_to(cur[m]) is Some);
        }
    }
    assert forall|m: int, k: int| 0 <= m < next.len() && 0 <= k < layer_live(next[m]).len() implies known(
        #[trigger] layer_live(next[m])[k],
        before,
        advance,
        added,
    ) by {
        if m != i {
            assert(next[m] == cur[m]);
            assert(known(layer_live(cur[m])[k], before, advance, added));
        } else if merging_to(cur[i]) is Some && next[i].complete_merge() {
            let r = layer_live(next[i])[k];
            assert(r@.since == merging_to(cur[i])->0);
            if merging_to(cur[i]) != Some(advance) {
                assert(merging_to(before[i]) == Some(r@.since));
            }
        } else {
            assert(layer_live(next[i]) == layer_live(cur[i]));
            assert(known(layer_live(cur[i])[k], before, advance, added));
        }
    }
}

/// What a layer hands out when it is completed is known, and so is what a
/// merge without a frontier makes of it and the batch in hand.
pub(crate) proof fn lemma_sourced_taken(
    before: Seq<MergeState>,
    cur: Seq<MergeState>,
    next: Seq<MergeState>,
    advance: Seq<u64>,
    hand: Option<Batch>,
    held: Option<Batch>,
    added: Option<Batch>,
    i: int,
    result: Option<Batch>,
)
    requires
        sourced(before, cur, advance, hand, added),
        0 <= i < cur.len(),
        next.len() == cur.len(),
        forall|j: int| 0 <= j < cur.len() && j != i ==> #[trigger] next[j] == cur[j],
        next[i].vacant(),
        handed(cur[i], result),
        held == result || held == hand || (held is Some && held->0@.since == Seq::<u64>::empty()),
    ensures
        sourced(before, next, advance, held, added),
{
    reveal(sourced);
    assert(merging_to(cur[i]) is Some ==> merging_to(cur[i]) == Some(advance) || (i < before.len() && merging_to(
        before[i],
    ) == merging_to(cur[i])));
    if result is Some {
        match cur[i] {
            MergeState::Single(b) => {
                assert(layer_live(cur[i])[0] == result->0);
                assert(known(layer_live(cur[i])[0], before, advance, added));
            },
            MergeState::Double(MergeVariant::Complete(b)) => {
                assert(layer_live(cur[i])[0] == result->0);
                assert(known(layer_live(cur[i])[0], before, advance, added));
            },
            MergeState::Double(MergeVariant::InProgress(_, _, _, _)) => {
                if merging_to(cur[i]) != Some(advance) {
                    assert(merging_to(before[i]) == Some(result->0@.since));
                }
            },
            MergeState::Vacant => {},
        }
        assert(known(result->0, before, advance, added));
    }
    assert forall|m: int| 0 <= m < next.len() && merging_to(#[trigger] next[m]) is Some implies merging_to(next[m])
        == Some(advance) || (m < before.len() && merging_to(before[m]) == merging_to(next[m])) by {
        assert(m != i);
        assert(next[m] == cur[m]);
        assert(merging_to(cur[m]) is Some);
    }
    assert forall|m: int, k: int| 0 <= m < next.len() && 0 <= k < layer_live(next[m]).len() implies known(
        #[trigger] layer_live(next[m])[k],
        before,
        advance,
        added,
    ) by {
        assert(m != i);
        assert(next[m] == cur[m]);
        assert(known(layer_live(cur[m])[k], before, advance, added));
    }
}

/// A layer into which a known batch was put holds known batches, and a
/// merge that begins there advances times to the advance frontier.
pub(crate) proof fn lemma_sourced_put(
    before: Seq<MergeState>,
    cur: Seq<MergeState>,
    next: Seq<MergeState>,
    advance: Seq<u64>,
    hand: Option<Batch>,
    added: Option<Batch>,
    x: Option<Batch>,
    frontier: Option<Vec<u64>>,
    from_hand: bool,
    i: int,
)
    requires
        sourced(before, cur, advance, hand, added),
        0 <= i < next.len(),
        next.len() == (if cur.len() > i {
            cur.len() as int
        } else {
            i + 1
        }),
        forall|j: int| 0 <= j < next.len() && j != i ==> #[trigger] next[j] == layer_at(cur, j),
        placed(next[i], layer_at(cur, i), x, frontier),
        frontier is Some && frontier->0@ == advance,
        from_hand ==> hand == x,
        !from_hand ==> added == x,
    ensures
        sourced(before, next, advance, if from_hand {
            None
        } else {
            hand
        }, added),
{
    let long = Seq::new(next.len(), |j: int| layer_at(cur, j));
    lemma_sourced_extended(before, cur, long, advance, hand, added);
    reveal(sourced);
    if x is Some {
        assert(known(x->0, before, advance, added));
    }
    assert forall|m: int| 0 <= m < next.len() && merging_to(#[trigger] next[m]) is Some implies merging_to(next[m])
        == Some(advance) || (m < before.len() && merging_to(before[m]) == merging_to(next[m])) by {
        if m != i {
            assert(next[m] == long[m]);
            assert(merging_to(long[m]) is Some);
        }
    }
    assert forall|m: int, k: int| 0 <= m < next.len() && 0 <= k < layer_live(next[m]).len() implies known(
        #[trigger] layer_live(next[m])[k],
        before,
        advance,
        added,
    ) by {
        if m != i {
            assert(next[m] == long[m]);
            assert(known(layer_live(long[m])[k], before, advance, added));
        } else {
            let b = layer_live(next[i])[k];
            if x is Some && b == x->0 {
            } else {
                assert(long[i] == layer_at(cur, i));
                assert(layer_live(long[i]).len() > 0 && layer_live(long[i])[0] == b);
                assert(known(layer_live(long[i])[0], before, advance, added));
            }
        }
    }
}

/// Moving the batch of the highest layer down brings no new batches.
pub(crate) proof fn lemma_sourced_tidied(
    before: Seq<MergeState>,
    cur: Seq<MergeState>,
    next: Seq<MergeState>,
    advance: Seq<u64>,
    added: Option<Batch>,
)
    requires
        sourced(before, cur, advance, None, added),
        tidied(cur, next),
    ensures
        sourced(before, next, advance, None, added),
{
    reveal(sourced);
    let top = cur.len() - 1;
    let to = next.len() - 1;
    assert forall|m: int| 0 <= m < next.len() && merging_to(#[trigger] next[m]) is Some implies merging_to(next[m])
        == Some(advance) || (m < before.len() && merging_to(before[m]) == merging_to(next[m])) by {
        if m < to {
            assert(next[m] == cur[m]);
            assert(merging_to(cur[m]) is Some);
        } else {
            assert(next[to] == cur[top]);
            assert(to == top);
            assert(merging_to(cur[top]) is Some);
        }
    }
    assert forall|m: int, k: int| 0 <= m < next.len() && 0 <= k < layer_live(next[m]).len() implies known(
        #[trigger] layer_live(next[m])[k],
        before,
        advance,
        added,
    ) by {
        if m < to {
            assert(next[m] == cur[m]);
            assert(known(layer_live(cur[m])[k], before, advance, added));
        } else {
            assert(next[to] == cur[top]);
            assert(known(layer_live(cur[top])[k], before, advance, added));
        }
    }
}

/// A batch of a layer is one of the batches of the layers.
pub(crate) proof fn lemma_live_in_merged(layers: Seq<MergeState>, n: int, m: int, i: int)
    requires
        0 <= m < n <= layers.len(),
        0 <= i < layer_live(layers[m]).len(),
    ensures
        exists|k: int| 0 <= k < merged_live(layers, n).len() && #[trigger] merged_live(layers, n)[k] == layer_live(
            layers[m],
        )[i],
    decreases n,
{
    let top = layer_live(layers[n - 1]);
    let rest = merged_live(layers, n - 1);
    let all = merged_live(layers, n);
    assert(all == top + rest);
    if m == n - 1 {
        assert(all[i] == top[i]);
    } else {
        lemma_live_in_merged(layers, n - 1, m, i);
        let k = choose|k: int| 0 <= k < rest.len() && #[trigger] rest[k] == layer_live(layers[m])[i];
        assert(all[top.len() + k] == rest[k]);
    }
}

/// A batch of the layers is a batch of one of the layers.
pub(crate) proof fn lemma_merged_from_layer(layers: Seq<MergeState>, n: int, k: int)
    requires
        0 <= n <= layers.len(),
        0 <= k < merged_live(layers, n).len(),
    ensures
        exists|m: int, i: int|
            0 <= m < n && 0 <= i < layer_live(layers[m]).len() && #[trigger] layer_live(layers[m])[i]
                == merged_live(layers, n)[k],
    decreases n,
{
    let top = layer_live(layers[n - 1]);
    let rest = merged_live(layers, n - 1);
    if k < top.len() {
        assert((top + rest)[k] == top[k]);
        assert(layer_live(layers[n - 1])[k] == merged_live(layers, n)[k]);
    } else {
        assert((top + rest)[k] == rest[k - top.len()]);
        lemma_merged_from_layer(layers, n - 1, k - top.len());
        let (m, i) = choose|m: int, i: int|
            0 <= m < n - 1 && 0 <= i < layer_live(layers[m]).len() && #[trigger] layer_live(layers[m])[i] == rest[k
                - top.len()];
        assert(layer_live(layers[m])[i] == merged_live(layers, n)[k]);
    }
}

} // verus!
