//! An append-only collection of batches that merges them as updates arrive.
//!
//! The spine is a list of layers. A layer is vacant, holds one batch, or
//! holds two batches that are being merged into one for the layer above. A
//! batch in layer `i` has at most `2^i` updates and is accounted as if it had
//! exactly that many; a layer may also hold a placeholder without updates
//! that is accounted in the same way.
//!
//! Every batch that is introduced pays fuel to each merge in progress, in
//! proportion to its accounted size. The spine keeps, for every layer that
//! holds two batches, the work left in its merge plus four times the size
//! accounted below it under four times the size of the layer. So a merge is
//! done before the layers below it can hand it another batch, and no batch
//! is ever put into a layer that still holds two.

use vstd::prelude::*;
use crate::consolidation::accumulated;
use crate::consolidation::canonical;
use crate::consolidation::agree_from;
use crate::consolidation::consolidated;
use crate::consolidation::equivalent;
use crate::consolidation::lemma_accumulated_advanced;
use crate::consolidation::lemma_accumulated_concat;
use crate::consolidation::lemma_advanced_beyond;
use crate::consolidation::lemma_agree_equivalent;
use crate::consolidation::lemma_canonical;
use crate::consolidation::lemma_equivalent_trans;
use crate::trace::implementations::spine_content::lemma_concat_accumulated;
use crate::difference::congruent;
use crate::lattice::beyond;
use crate::lattice::frontier_dominates;
use crate::lattice::frontier_eq;
use crate::lattice::frontier_le;
use crate::lattice::frontier_to_vec;
use crate::lattice::join_spec;
use crate::lattice::minimum;
use crate::levels::ceil_log2;
use crate::levels::ceil_log2_spec;
use crate::levels::floor_log2;
use crate::levels::floor_log2_spec;
use crate::levels::lemma_pow2_above;
use crate::levels::lemma_pow2_monotone;
use crate::levels::lemma_pow2_positive;
use crate::levels::pow2;
use crate::levels::pow2_exec;
use crate::trace::batch::Batch;
use crate::trace::batch::BatchView;
use crate::trace::batch::Builder;
use crate::trace::batch::frontier_or_empty;
use crate::trace::cursor::Cursor;
use crate::trace::cursor::CursorList;
use crate::trace::cursor::concat_updates;
use crate::trace::implementations::spine_content::accumulated_all;
use crate::trace::implementations::spine_content::balanced;
use crate::trace::implementations::spine_content::lemma_merged_from_layer;
use crate::trace::implementations::spine_content::lemma_live_in_merged;
use crate::trace::implementations::spine_content::lemma_sourced_tidied;
use crate::trace::implementations::spine_content::lemma_sourced_put;
use crate::trace::implementations::spine_content::lemma_sourced_taken;
use crate::trace::implementations::spine_content::lemma_sourced_kept;
use crate::trace::implementations::spine_content::lemma_sourced_extended;
use crate::trace::implementations::spine_content::lemma_sourced_refl;
use crate::trace::implementations::spine_content::known;
use crate::trace::implementations::spine_content::folds_one;
use crate::trace::implementations::spine_content::folded_one;
use crate::trace::implementations::spine_content::lemma_rolled_none;
use crate::trace::implementations::spine_content::lemma_rolled_put;
use crate::trace::implementations::spine_content::lemma_rolled_raised;
use crate::trace::implementations::spine_content::lengthened;
use crate::trace::implementations::spine_content::rolled;
use crate::trace::implementations::spine_content::sourced;
use crate::trace::implementations::spine_content::lemma_merged_last;
use crate::trace::implementations::spine_content::layer_live;
use crate::trace::implementations::spine_content::layers_acc;
use crate::trace::implementations::spine_content::lemma_accumulated_all_concat;
use crate::trace::implementations::spine_content::lemma_accumulated_all_first;
use crate::trace::implementations::spine_content::lemma_balanced_extended;
use crate::trace::implementations::spine_content::lemma_balanced_kept;
use crate::trace::implementations::spine_content::lemma_balanced_put;
use crate::trace::implementations::spine_content::lemma_balanced_refl;
use crate::trace::implementations::spine_content::lemma_balanced_taken;
use crate::trace::implementations::spine_content::lemma_balanced_tidied;
use crate::trace::implementations::spine_content::lemma_layers_acc_live;
use crate::trace::implementations::spine_content::merged_live;
use crate::trace::implementations::spine_content::quiet;
use crate::trace::implementations::spine_layers::MergeState;
use crate::trace::implementations::spine_layers::merging_to;
use crate::trace::implementations::spine_layers::MergeVariant;
use crate::trace::implementations::spine_layers::batch_acc;
use crate::trace::implementations::spine_layers::batch_len;
use crate::trace::implementations::spine_layers::batch_span;
use crate::trace::implementations::spine_layers::begun;
use crate::trace::implementations::spine_layers::handed;
use crate::trace::implementations::spine_layers::fresh;
use crate::trace::implementations::spine_layers::lemma_placed_fresh;
use crate::trace::implementations::spine_layers::layer_at;
use crate::trace::implementations::spine_layers::lemma_remaining_begun;
use crate::trace::implementations::spine_layers::lemma_remaining_nonnegative;
use crate::trace::implementations::spine_layers::placed;
use crate::trace::implementations::spine_layers::span_upper;
use crate::trace::implementations::spine_layers::worked;
use crate::trace::implementations::spine_order::below;
use crate::trace::implementations::spine_order::lemma_none_complete;
use crate::trace::implementations::spine_order::none_complete;
use crate::trace::implementations::spine_order::after_fuel;
use crate::trace::implementations::spine_order::lemma_fuel_start;
use crate::trace::implementations::spine_order::lemma_fuel_step;
use crate::trace::implementations::spine_order::lemma_moved_start;
use crate::trace::implementations::spine_order::lemma_low_start;
use crate::trace::implementations::spine_order::lemma_low_step;
use crate::trace::implementations::spine_order::lemma_single_above_vacant;
use crate::trace::implementations::spine_order::lemma_single_upto;
use crate::trace::implementations::spine_order::lemma_single_all;
use crate::trace::implementations::spine_order::single_upto;
use crate::trace::implementations::spine_order::low_untouched;
use crate::trace::implementations::spine_order::lemma_moved_step;
use crate::trace::implementations::spine_order::moved_up;
use crate::trace::implementations::spine_order::above_untouched;
use crate::trace::implementations::spine_order::raised;
use crate::trace::implementations::spine_order::lemma_introduced;
use crate::trace::implementations::spine_order::lemma_first_occupied_at;
use crate::trace::implementations::spine_order::lemma_first_occupied;
use crate::trace::implementations::spine_order::first_occupied;
use crate::trace::implementations::spine_order::merges_untouched;
use crate::trace::implementations::spine_order::fuel_applied;
use crate::trace::implementations::spine_order::tidied;
use crate::trace::implementations::spine_order::resting;
use crate::trace::implementations::spine_order::chained;
use crate::trace::implementations::spine_order::credit_of;
use crate::trace::implementations::spine_order::fitting;
use crate::trace::implementations::spine_order::fuel_state;
use crate::trace::implementations::spine_order::fueled;
use crate::trace::implementations::spine_order::lemma_below_extended;
use crate::trace::implementations::spine_order::lemma_below_nonnegative;
use crate::trace::implementations::spine_order::lemma_below_monotone;
use crate::trace::implementations::spine_order::lemma_below_vacant;
use crate::trace::implementations::spine_order::lemma_chain_placed;
use crate::trace::implementations::spine_order::lemma_chained_from;
use crate::trace::implementations::spine_order::lemma_index_bound;
use crate::trace::implementations::spine_order::lemma_no_double_low;
use crate::trace::implementations::spine_order::lemma_placed_numeric;
use crate::trace::implementations::spine_order::lemma_promote_ready;
use crate::trace::implementations::spine_order::lemma_promoted;
use crate::trace::implementations::spine_order::lemma_start_agree;
use crate::trace::implementations::spine_order::lemma_start_compose;
use crate::trace::implementations::spine_order::lemma_start_vacant;
use crate::trace::implementations::spine_order::lemma_tidied;
use crate::trace::implementations::spine_order::lemma_vacated;
use crate::trace::implementations::spine_order::lemma_worked;
use crate::trace::implementations::spine_order::link_of;
use crate::trace::implementations::spine_order::start;
use crate::trace::implementations::spine_order::vacant_below;
use crate::trace::implementations::spine_order::vacant_under;
use crate::update::advanced;
use crate::update::Update;
use crate::update::times_beyond;
use timely::dataflow::operators::generic::OperatorInfo;
use timely::scheduling::activate::Activator;

verus! {

/// `timely`'s `OperatorInfo`, the description of an operator. The spine
/// keeps it and never looks into it.
#[verifier::external_type_specification]
#[verifier::external_body]
pub struct ExOperatorInfo(OperatorInfo);

/// `timely`'s `Activator`, the handle by which the runtime is asked to
/// schedule an operator. The spine keeps it for whoever holds the spine and
/// never calls it.
#[verifier::external_type_specification]
#[verifier::external_body]
pub struct ExActivator(Activator);

/// `OperatorInfo::new`: the description of an operator with the given
/// index and an empty address.
#[verifier::external_body]
pub(crate) fn operator_info(index: usize) -> (info: OperatorInfo) {
    OperatorInfo::new(index, index, std::rc::Rc::from(Vec::<usize>::new()))
}

/// What introducing a batch of `n` updates adds at most to the size that
/// the spine accounts: twice the size of the layer it belongs to.
pub open spec fn cost(n: nat) -> int {
    (2 * pow2(ceil_log2_spec(n))) as int
}

/// What each of the batches holds.
pub open spec fn views(batches: Seq<Batch>) -> Seq<BatchView> {
    Seq::new(batches.len(), |i: int| batches[i]@)
}

/// The number of batches at the front of `waiting` that may be introduced:
/// those up to the first whose upper frontier does not dominate `through`.
pub open spec fn released(waiting: Seq<BatchView>, through: Seq<u64>) -> nat
    decreases waiting.len(),
{
    if waiting.len() == 0 {
        0
    } else if frontier_le(waiting[0].upper, through) {
        1 + released(waiting.skip(1), through)
    } else {
        0
    }
}

/// No more batches are released than there are.
pub proof fn lemma_released_bound(waiting: Seq<BatchView>, through: Seq<u64>)
    ensures
        released(waiting, through) <= waiting.len(),
    decreases waiting.len(),
{
    if waiting.len() > 0 && frontier_le(waiting[0].upper, through) {
        lemma_released_bound(waiting.skip(1), through);
    }
}

/// What the batch holds that closes a trace at `upper`: no updates, between
/// `upper` and `upper`.
pub open spec fn closing(upper: Seq<u64>) -> BatchView {
    BatchView { lower: upper, upper: upper, since: upper, updates: Seq::empty() }
}

/// The fuel that every merge in progress is paid when a batch is introduced
/// at layer `index`: eight units for each update that the layer accounts
/// for, times the effort.
pub open spec fn fuel_for(index: nat, effort: nat) -> int {
    (8 * pow2(index) * effort) as int
}

/// Each batch begins where the one before it ends.
pub open spec fn linked(batches: Seq<Batch>) -> bool {
    forall|i: int| 0 <= i < batches.len() - 1 ==> (#[trigger] batches[i])@.upper == batches[i + 1]@.lower
}

/// The batch is not logically empty and, where an upper frontier is given,
/// ends at or before it.
pub open spec fn included(batch: Batch, upper: Option<Seq<u64>>) -> bool {
    &&& batch@.lower != batch@.upper
    &&& upper is Some ==> frontier_le(batch@.upper, upper->0)
}

/// The batches that are included, in their order.
pub open spec fn selected(batches: Seq<Batch>, upper: Option<Seq<u64>>) -> Seq<Batch>
    decreases batches.len(),
{
    if batches.len() == 0 {
        batches
    } else if included(batches.last(), upper) {
        selected(batches.drop_last(), upper).push(batches.last())
    } else {
        selected(batches.drop_last(), upper)
    }
}

/// The batch is not logically empty, and the frontier lies between its
/// bounds without being its lower bound: it is in advance of one bound and
/// not of the other.
pub open spec fn straddles(batch: Batch, upper: Seq<u64>) -> bool {
    &&& batch@.lower != batch@.upper
    &&& frontier_le(batch@.lower, upper) != frontier_le(batch@.upper, upper)
    &&& upper != batch@.lower
}

/// `r` is what merging the two batches `parts` towards `frontier` comes
/// to: it lies between the lower frontier of the first and the upper
/// frontier of the second, its `since` is the frontier, and its updates are
/// the consolidated updates of both with their times advanced to the
/// frontier, so that every time is at or after every element of the
/// frontier.
pub open spec fn merge_of(r: Batch, parts: Seq<Batch>, frontier: Seq<u64>) -> bool {
    &&& parts.len() == 2
    &&& r@.lower == parts[0]@.lower
    &&& r@.upper == parts[1]@.upper
    &&& r@.since == frontier
    &&& r@.updates == canonical(advanced(parts[0]@.updates + parts[1]@.updates, frontier))
    &&& times_beyond(r@.updates, frontier)
}

/// Every time in what a merge towards `frontier` comes to has been
/// advanced: joining it with an element of the frontier changes nothing.
pub proof fn lemma_merge_advances(r: Batch, parts: Seq<Batch>, frontier: Seq<u64>, i: int, j: int)
    requires
        merge_of(r, parts, frontier),
        0 <= i < r@.updates.len(),
        0 <= j < frontier.len(),
    ensures
        join_spec(frontier[j], r@.updates[i].time) == r@.updates[i].time,
{
    assert(beyond(frontier, r@.updates[i].time));
}

/// Lists of batches that hold the same have the same updates.
pub proof fn lemma_concat_views(a: Seq<Batch>, b: Seq<Batch>)
    requires
        views(a) == views(b),
    ensures
        concat_updates(a) == concat_updates(b),
    decreases a.len(),
{
    assert(views(a).len() == a.len());
    assert(views(b).len() == b.len());
    if a.len() > 0 {
        assert(views(a)[a.len() - 1] == a.last()@);
        assert(views(b)[b.len() - 1] == b.last()@);
        assert(views(a.drop_last()) =~= views(b.drop_last())) by {
            assert forall|i: int| 0 <= i < a.len() - 1 implies views(a.drop_last())[i] == views(b.drop_last())[i] by {
                assert(views(a)[i] == a[i]@);
                assert(views(b)[i] == b[i]@);
            }
        }
        lemma_concat_views(a.drop_last(), b.drop_last());
    }
}

/// Where every batch ends at or before `upper`, `upper` leaves out only
/// the logically empty batches.
pub proof fn lemma_selected_all(batches: Seq<Batch>, upper: Seq<u64>)
    requires
        forall|i: int| 0 <= i < batches.len() ==> frontier_le((#[trigger] batches[i])@.upper, upper),
    ensures
        selected(batches, Some(upper)) == selected(batches, None),
    decreases batches.len(),
{
    if batches.len() > 0 {
        assert(frontier_le(batches[batches.len() - 1]@.upper, upper));
        assert forall|i: int| 0 <= i < batches.drop_last().len() implies frontier_le(
            (#[trigger] batches.drop_last()[i])@.upper,
            upper,
        ) by {
            assert(batches.drop_last()[i] == batches[i]);
        }
        lemma_selected_all(batches.drop_last(), upper);
    }
}

/// Where the logically empty batches hold no updates, the other batches
/// accumulate what all accumulate.
proof fn lemma_selected_accumulates(batches: Seq<Batch>, d: u64, q: u64)
    requires
        forall|i: int|
            0 <= i < batches.len() && (#[trigger] batches[i])@.lower == batches[i]@.upper
                ==> batches[i]@.updates.len() == 0,
    ensures
        accumulated_all(selected(batches, None), d, q) == accumulated_all(batches, d, q),
    decreases batches.len(),
{
    if batches.len() > 0 {
        let rest = batches.drop_last();
        assert forall|i: int| 0 <= i < rest.len() && (#[trigger] rest[i])@.lower == rest[i]@.upper implies rest[i]@.updates.len()
            == 0 by {
            assert(rest[i] == batches[i]);
        }
        lemma_selected_accumulates(rest, d, q);
        let last = batches.last();
        assert(last == batches[batches.len() - 1]);
        if included(last, None) {
            let chosen = selected(rest, None).push(last);
            assert(chosen.drop_last() =~= selected(rest, None));
            assert(chosen.last() == last);
        } else {
            assert(last@.updates =~= Seq::<Update>::empty());
        }
    }
}

/// The batch alone; nothing for a placeholder.
pub open spec fn one_batch(batch: Option<Batch>) -> Seq<Batch> {
    match batch {
        Some(b) => seq![b],
        None => Seq::empty(),
    }
}

/// The updates of the batch; none for a placeholder.
pub open spec fn one_updates(batch: Option<Batch>) -> Seq<Update> {
    match batch {
        Some(b) => b@.updates,
        None => Seq::empty(),
    }
}

/// The frontier straddles one of the batches.
pub open spec fn straddled(batches: Seq<Batch>, upper: Seq<u64>) -> bool {
    exists|i: int| 0 <= i < batches.len() && straddles(#[trigger] batches[i], upper)
}

/// What introducing the batches adds at most to the accounted size.
spec fn pending_cost(pending: Seq<Batch>) -> int
    decreases pending.len(),
{
    if pending.len() == 0 {
        0
    } else {
        pending_cost(pending.drop_last()) + cost(pending.last()@.updates.len())
    }
}

/// Each batch begins where the one before it ends, and the last ends at
/// `upper`.
spec fn pending_linked(pending: Seq<Batch>, upper: Seq<u64>) -> bool {
    &&& forall|i: int| 0 <= i < pending.len() - 1 ==> (#[trigger] pending[i])@.upper == pending[i + 1]@.lower
    &&& pending.len() > 0 ==> pending[pending.len() - 1]@.upper == upper
}

/// The frontier at which the layers end: where the first batch that waits
/// begins, or `upper` where none waits.
spec fn merging_end(pending: Seq<Batch>, upper: Seq<u64>) -> Seq<u64> {
    if pending.len() > 0 {
        pending[0]@.lower
    } else {
        upper
    }
}

/// The number of layers below `m` that hold a batch with a description.
spec fn nontrivial_below(layers: Seq<MergeState>, m: int) -> int
    decreases m,
{
    if m <= 0 {
        0
    } else {
        nontrivial_below(layers, m - 1) + (if layers[m - 1].span() is Some {
            1int
        } else {
            0int
        })
    }
}

/// No layer below `m` holds two batches.
spec fn no_double_below(layers: Seq<MergeState>, m: int) -> bool {
    forall|j: int| 0 <= j < m ==> !(#[trigger] layers[j]).double()
}

proof fn lemma_pending_cost_nonnegative(pending: Seq<Batch>)
    ensures
        pending_cost(pending) >= 0,
    decreases pending.len(),
{
    if pending.len() > 0 {
        lemma_pending_cost_nonnegative(pending.drop_last());
    }
}

/// Introducing the first of the batches leaves the cost of the others.
proof fn lemma_pending_cost_first(pending: Seq<Batch>)
    requires
        pending.len() > 0,
    ensures
        pending_cost(pending) == cost(pending[0]@.updates.len()) + pending_cost(pending.skip(1)),
    decreases pending.len(),
{
    if pending.len() == 1 {
        assert(pending.drop_last() =~= pending.skip(1));
        assert(pending_cost(pending.skip(1)) == 0);
        assert(pending.last() == pending[0]);
    } else {
        lemma_pending_cost_first(pending.drop_last());
        assert(pending.drop_last().skip(1) =~= pending.skip(1).drop_last());
        assert(pending.skip(1).last() == pending.last());
        assert(pending.drop_last()[0] == pending[0]);
    }
}

proof fn lemma_nontrivial_monotone(layers: Seq<MergeState>, m: int, n: int)
    requires
        m <= n,
    ensures
        nontrivial_below(layers, m) <= nontrivial_below(layers, n),
    decreases n - m,
{
    if m < n {
        lemma_nontrivial_monotone(layers, m, n - 1);
    }
}

/// Selecting from a list with one more batch.
pub proof fn lemma_selected_push(batches: Seq<Batch>, batch: Batch, upper: Option<Seq<u64>>)
    ensures
        selected(batches.push(batch), upper) == if included(batch, upper) {
            selected(batches, upper).push(batch)
        } else {
            selected(batches, upper)
        },
        views(batches.push(batch)) == views(batches).push(batch@),
{
    assert(batches.push(batch).drop_last() =~= batches);
    assert(views(batches.push(batch)) =~= views(batches).push(batch@));
}

/// Selecting from a concatenation is concatenating the selections.
pub proof fn lemma_selected_concat(a: Seq<Batch>, b: Seq<Batch>, upper: Option<Seq<u64>>)
    ensures
        selected(a + b, upper) == selected(a, upper) + selected(b, upper),
    decreases b.len(),
{
    if b.len() == 0 {
        assert(a + b =~= a);
        assert(selected(a, upper) + selected(b, upper) =~= selected(a, upper));
    } else {
        lemma_selected_concat(a, b.drop_last(), upper);
        assert((a + b).drop_last() =~= a + b.drop_last());
        assert((a + b).last() == b.last());
        if included(b.last(), upper) {
            assert(selected(a + b, upper) =~= selected(a, upper) + selected(b, upper));
        }
    }
}

/// The batches of chained layers follow one another from where the layers
/// start to where they end.
proof fn lemma_merged_linked(layers: Seq<MergeState>, m: int, end: Seq<u64>)
    requires
        0 <= m <= layers.len(),
        fitting(layers),
        chained(layers, 0, layers.len() as int, end),
    ensures
        linked(merged_live(layers, m)),
        merged_live(layers, m).len() > 0 ==> merged_live(layers, m)[0]@.lower == start(layers, 0, m, end)
            && merged_live(layers, m)[merged_live(layers, m).len() - 1]@.upper == end,
        merged_live(layers, m).len() == 0 ==> start(layers, 0, m, end) == end,
    decreases m,
{
    if m > 0 {
        lemma_merged_linked(layers, m - 1, end);
        let top = layer_live(layers[m - 1]);
        let rest = merged_live(layers, m - 1);
        let all = merged_live(layers, m);
        assert(all == top + rest);
        assert(layers[m - 1].fits((m - 1) as nat));
        if layers[m - 1].span() is Some {
            assert(span_upper(layers[m - 1].span()) == start(layers, 0, m - 1, end));
        }
        assert forall|i: int| 0 <= i < all.len() - 1 implies (#[trigger] all[i])@.upper == all[i + 1]@.lower by {
            if i >= top.len() {
                assert(all[i] == rest[i - top.len()]);
                assert(all[i + 1] == rest[i + 1 - top.len()]);
            } else if i + 1 < top.len() {
                assert(all[i] == top[i]);
                assert(all[i + 1] == top[i + 1]);
            } else {
                assert(all[i] == top[i]);
                assert(all[i + 1] == rest[0]);
            }
        }
        if all.len() > 0 {
            if top.len() > 0 {
                assert(all[0] == top[0]);
            } else {
                assert(all =~= rest);
            }
            if rest.len() > 0 {
                assert(all[all.len() - 1] == rest[rest.len() - 1]);
            } else {
                assert(all =~= top);
            }
        }
    }
}

/// An append-only collection of batches, merged as updates arrive.
pub struct Spine {
    operator: OperatorInfo,
    advance_frontier: Vec<u64>,
    through_frontier: Vec<u64>,
    merging: Vec<MergeState>,
    pending: Vec<Batch>,
    upper: Vec<u64>,
    effort: usize,
    activator: Option<Activator>,
}

impl Spine {
    /// The handle that the spine was given to ask for the operator to be
    /// scheduled again.
    pub closed spec fn spec_activator(&self) -> Option<Activator> {
        self.activator
    }

    /// The frontier up to which batches have been inserted.
    pub closed spec fn spec_upper(&self) -> Seq<u64> {
        self.upper@
    }

    /// The frontier to which merges advance times.
    pub closed spec fn spec_advance_frontier(&self) -> Seq<u64> {
        self.advance_frontier@
    }

    /// The frontier up to which batches are kept apart for cursors.
    pub closed spec fn spec_distinguish_frontier(&self) -> Seq<u64> {
        self.through_frontier@
    }

    /// The factor by which the fuel of each introduced batch is scaled.
    pub closed spec fn spec_effort(&self) -> nat {
        self.effort as nat
    }

    /// The number of layers.
    pub closed spec fn spec_layers(&self) -> nat {
        self.merging@.len()
    }

    /// The batches that wait to be introduced, oldest first.
    pub closed spec fn waiting(&self) -> Seq<BatchView> {
        views(self.pending@)
    }

    /// The batches of the layers, oldest first.
    pub closed spec fn merged(&self) -> Seq<Batch> {
        merged_live(self.merging@, self.merging@.len() as int)
    }

    /// The batches that wait to be introduced, oldest first.
    pub closed spec fn pending(&self) -> Seq<Batch> {
        self.pending@
    }

    /// All batches of the spine, in the order in which they were inserted.
    pub open spec fn live(&self) -> Seq<Batch> {
        self.merged() + self.pending()
    }

    /// What layer `i` holds: 0 for nothing, 1 for one batch or placeholder,
    /// 2 for two batches or what their merge came to.
    pub closed spec fn layer_kind(&self, i: int) -> nat {
        match self.merging@[i] {
            MergeState::Vacant => 0,
            MergeState::Single(_) => 1,
            MergeState::Double(_) => 2,
        }
    }

    /// The number of updates in the batches of layer `i`.
    pub closed spec fn layer_len(&self, i: int) -> nat {
        self.merging@[i].spec_len() as nat
    }

    /// The size accounted in the layers below `i`: `2^j` for each batch or
    /// placeholder in a layer `j`.
    pub closed spec fn accounted_below(&self, i: int) -> int {
        below(self.merging@, i)
    }

    /// The number of updates that the merge in layer `i` has still to read.
    pub closed spec fn work_left(&self, i: int) -> int {
        self.merging@[i].remaining()
    }

    /// The size that the spine accounts for its layers and for the batches
    /// that wait to be introduced.
    pub closed spec fn load(&self) -> int {
        below(self.merging@, self.merging@.len() as int) + pending_cost(self.pending@)
    }

    /// The greatest load for which the fuel of a batch fits in an `isize`.
    pub closed spec fn capacity(&self) -> int {
        (isize::MAX as int) / (8 * self.effort as int)
    }

    /// No layer holds two batches, and at most one holds a batch with a
    /// description.
    pub closed spec fn spec_reduced(&self) -> bool {
        &&& no_double_below(self.merging@, self.merging@.len() as int)
        &&& nontrivial_below(self.merging@, self.merging@.len() as int) <= 1
    }

    /// The sum of the differences that the batches of the spine record for
    /// `data` at the times up to `query`.
    pub closed spec fn accumulation(&self, data: u64, query: u64) -> int {
        layers_acc(self.merging@, self.merging@.len() as int, data, query) + accumulated_all(
            self.pending@,
            data,
            query,
        )
    }

    /// The query time is beyond the frontier of every merge in progress.
    pub closed spec fn merges_settled(&self, query: u64) -> bool {
        forall|i: int| 0 <= i < self.merging@.len() ==> (#[trigger] self.merging@[i]).settled(query)
    }

    /// The query time is beyond the advance frontier and beyond the
    /// frontier of every merge in progress: what the spine accumulates up to
    /// it is what was inserted.
    pub closed spec fn settled(&self, query: u64) -> bool {
        quiet(self.merging@, self.advance_frontier@, query)
    }

    /// The spine holds what `other` held and the batch `added`: wherever
    /// `other` was settled, the spine is settled and accumulates what
    /// `other` and the batch accumulate.
    pub open spec fn holds(&self, other: &Spine, added: Option<Batch>) -> bool {
        &&& forall|q: u64| other.settled(q) ==> #[trigger] self.settled(q)
        &&& forall|d: u64, q: u64|
            #![trigger self.accumulation(d, q)]
            other.settled(q) ==> congruent(
                self.accumulation(d, q),
                other.accumulation(d, q) + match added {
                    Some(b) => accumulated(b@.updates, d, q),
                    None => 0,
                },
            )
    }

    /// The spine is at rest: every layer holds what it may hold, every merge
    /// will be paid for before its layer is needed, the batches follow one
    /// another without a gap up to the upper frontier, and the load is
    /// within the capacity.
    pub closed spec fn wf(&self) -> bool {
        &&& self.effort >= 1
        &&& fitting(self.merging@)
        &&& fueled(self.merging@, 0, self.merging@.len() as int, 0)
        &&& chained(self.merging@, 0, self.merging@.len() as int, merging_end(self.pending@, self.upper@))
        &&& pending_linked(self.pending@, self.upper@)
        &&& self.load() <= self.capacity()
    }

    /// The index of the lowest layer that is not vacant; the number of
    /// layers where all are vacant.
    pub closed spec fn lowest(&self) -> int {
        first_occupied(self.merging@, 0)
    }

    /// The layers below the lowest layer that is not vacant are vacant.
    pub proof fn lemma_lowest(&self)
        ensures
            0 <= self.lowest() <= self.spec_layers(),
            forall|i: int| 0 <= i < self.lowest() ==> #[trigger] self.layer_kind(i) == 0,
            self.lowest() < self.spec_layers() ==> self.layer_kind(self.lowest()) != 0,
    {
        lemma_first_occupied(self.merging@, 0);
        assert forall|i: int| 0 <= i < self.lowest() implies #[trigger] self.layer_kind(i) == 0 by {
            assert(self.merging@[i].vacant());
        }
    }

    /// Layer `i` holds a merge that needs no more work.
    pub closed spec fn merge_complete(&self, i: int) -> bool {
        self.merging@[i].complete_merge()
    }

    /// The frontier to which the merge in progress in layer `i` advances
    /// times; the empty frontier where it advances none.
    pub closed spec fn merge_frontier(&self, i: int) -> Seq<u64> {
        frontier_or_empty(self.merging@[i]->Double_0->InProgress_2)
    }

    /// The batches of layer `i`, the older first: the two of a merge in
    /// progress, or the one that the layer holds.
    pub closed spec fn layer_batches(&self, i: int) -> Seq<Batch> {
        layer_live(self.merging@[i])
    }

    /// Every batch of a layer is among the batches of the layers.
    pub proof fn lemma_layer_batches(&self, i: int, k: int)
        requires
            0 <= i < self.spec_layers(),
            0 <= k < self.layer_batches(i).len(),
        ensures
            exists|j: int| 0 <= j < self.merged().len() && #[trigger] self.merged()[j] == self.layer_batches(i)[k],
    {
        lemma_live_in_merged(self.merging@, self.merging@.len() as int, i, k);
        let j = choose|j: int|
            0 <= j < merged_live(self.merging@, self.merging@.len() as int).len() && #[trigger] merged_live(
                self.merging@,
                self.merging@.len() as int,
            )[j] == layer_live(self.merging@[i])[k];
        assert(self.merged()[j] == self.layer_batches(i)[k]);
    }

    /// One of the batches of the layers is what merging the two batches
    /// `parts` towards `frontier` comes to.
    pub open spec fn has_merge_of(&self, parts: Seq<Batch>, frontier: Seq<u64>) -> bool {
        exists|i: int| 0 <= i < self.merged().len() && merge_of(#[trigger] self.merged()[i], parts, frontier)
    }

    /// Layer `index` is the lowest that holds anything, and holds one batch:
    /// a batch that is put into it begins a merge with that batch.
    pub open spec fn begins_merge(&self, index: int) -> bool {
        &&& 0 <= index < self.spec_layers()
        &&& self.lowest() == index
        &&& self.layer_kind(index) == 1
        &&& self.layer_batches(index).len() == 1
    }

    /// Below layer `index` one layer holds anything, which is one batch,
    /// and layer `index` holds one batch: a batch that is introduced at
    /// `index` rolls the lower batch up into the batch of the layer.
    pub open spec fn rolls_one(&self, index: int) -> bool {
        &&& 0 <= self.lowest() < index < self.spec_layers()
        &&& forall|i: int| self.lowest() < i < index ==> #[trigger] self.layer_kind(i) == 0
        &&& self.layer_kind(self.lowest()) == 1
        &&& self.layer_batches(self.lowest()).len() == 1
        &&& self.layer_kind(index) == 1
        &&& self.layer_batches(index).len() == 1
    }

    /// The merge in progress in layer `m` has less to read than `fuel`, and
    /// the layer above it holds nothing.
    pub open spec fn merge_finishes(&self, m: int, fuel: int) -> bool {
        &&& 0 <= m < self.spec_layers()
        &&& self.layer_kind(m) == 2
        &&& !self.merge_complete(m)
        &&& self.work_left(m) < fuel
        &&& m + 1 >= self.spec_layers() || self.layer_kind(m + 1) == 0
    }

    /// Layer `i` of the spine holds the merge that layer `i` of `other`
    /// held, after it has read `fuel` more updates: the merge is still in
    /// progress, towards the same frontier.
    pub open spec fn merge_continued(&self, other: &Spine, i: int, fuel: int) -> bool {
        &&& i < self.spec_layers()
        &&& self.layer_kind(i) == 2
        &&& !self.merge_complete(i)
        &&& self.work_left(i) == other.work_left(i) - fuel
        &&& self.layer_len(i) == other.layer_len(i)
        &&& self.merge_frontier(i) == other.merge_frontier(i)
    }

    /// The spine accounts for the batch `b`: the batch is in its layers,
    /// or it is the batch `added`, or it came out of a merge. A batch that
    /// came out of a merge has a `since` frontier. That is the advance
    /// frontier of the spine, where the merge began after the frontier was
    /// set; or the frontier of a merge that is in progress in the spine; or
    /// the empty frontier, where lower layers were rolled up with no batch
    /// of the layer above to merge with.
    pub open spec fn accounts_for(&self, b: Batch, added: Option<Batch>) -> bool {
        ||| exists|i: int| 0 <= i < self.merged().len() && #[trigger] self.merged()[i] == b
        ||| added == Some(b)
        ||| b@.since == self.spec_advance_frontier()
        ||| b@.since == Seq::<u64>::empty()
        ||| exists|m: int|
            0 <= m < self.spec_layers() && self.layer_kind(m) == 2 && !self.merge_complete(m)
                && #[trigger] self.merge_frontier(m) == b@.since
    }

    /// The spine follows `other`: every merge in progress in its layers
    /// advances times to the advance frontier, unless it was in progress in
    /// `other`, where it keeps its frontier; and `other` accounts for every
    /// batch of its layers.
    pub open spec fn follows(&self, other: &Spine, added: Option<Batch>) -> bool {
        &&& forall|m: int|
            0 <= m < self.spec_layers() && self.layer_kind(m) == 2 && !self.merge_complete(m)
                ==> #[trigger] self.merge_frontier(m) == other.spec_advance_frontier() || (m < other.spec_layers()
                && other.layer_kind(m) == 2 && !other.merge_complete(m) && self.merge_frontier(m)
                == other.merge_frontier(m))
        &&& forall|i: int| 0 <= i < self.merged().len() ==> other.accounts_for(#[trigger] self.merged()[i], added)
    }

    /// What is known of where the batches of the layers come from, said of
    /// the spine.
    proof fn lemma_follows(&self, other: &Spine, added: Option<Batch>)
        requires
            sourced(other.merging@, self.merging@, other.advance_frontier@, None, added),
        ensures
            self.follows(other, added),
    {
        reveal(sourced);
        let before = other.merging@;
        let after = self.merging@;
        assert forall|m: int|
            0 <= m < self.spec_layers() && self.layer_kind(m) == 2 && !self.merge_complete(m)
                implies #[trigger] self.merge_frontier(m) == other.spec_advance_frontier() || (m < other.spec_layers()
            && other.layer_kind(m) == 2 && !other.merge_complete(m) && self.merge_frontier(m)
            == other.merge_frontier(m)) by {
            assert(merging_to(after[m]) is Some);
            assert(merging_to(after[m]) == Some(self.merge_frontier(m)));
            if merging_to(after[m]) != Some(other.advance_frontier@) {
                assert(merging_to(before[m]) == Some(other.merge_frontier(m)));
            }
        }
        assert forall|i: int| 0 <= i < self.merged().len() implies other.accounts_for(
            #[trigger] self.merged()[i],
            added,
        ) by {
            let b = self.merged()[i];
            lemma_merged_from_layer(after, after.len() as int, i);
            let (m, k) = choose|m: int, k: int|
                0 <= m < after.len() && 0 <= k < layer_live(after[m]).len() && #[trigger] layer_live(after[m])[k]
                    == b;
            assert(known(layer_live(after[m])[k], before, other.advance_frontier@, added));
            if exists|m0: int, i0: int|
                0 <= m0 < before.len() && 0 <= i0 < layer_live(before[m0]).len() && #[trigger] layer_live(
                    before[m0],
                )[i0] == b {
                let (m0, i0) = choose|m0: int, i0: int|
                    0 <= m0 < before.len() && 0 <= i0 < layer_live(before[m0]).len() && #[trigger] layer_live(
                        before[m0],
                    )[i0] == b;
                lemma_live_in_merged(before, before.len() as int, m0, i0);
                let k0 = choose|k0: int|
                    0 <= k0 < merged_live(before, before.len() as int).len() && #[trigger] merged_live(
                        before,
                        before.len() as int,
                    )[k0] == layer_live(before[m0])[i0];
                assert(other.merged()[k0] == b);
            } else if exists|m1: int| 0 <= m1 < before.len() && #[trigger] merging_to(before[m1]) == Some(b@.since) {
                let m1 = choose|m1: int| 0 <= m1 < before.len() && #[trigger] merging_to(before[m1]) == Some(b@.since);
                assert(other.merge_frontier(m1) == b@.since);
                assert(other.layer_kind(m1) == 2 && !other.merge_complete(m1));
            }
        }
    }

    /// The spine is `other` after `fuel` was applied to each merge. A
    /// merge that was complete, or had fewer updates to read than there was
    /// fuel, has left its layer vacant: what it came to has moved up. Any
    /// other merge is still in its layer and has read as many updates as
    /// there was fuel, none where the fuel was not positive. No layer is
    /// left holding a complete merge. Where a merge in progress had less to
    /// read than there was fuel and the layer above it held nothing, that
    /// layer now holds one batch: the consolidated updates of both batches
    /// of the merge, with their times advanced to the frontier of the merge,
    /// which is the `since` frontier of the batch.
    pub open spec fn fueled_by(&self, other: &Spine, fuel: int) -> bool {
        &&& self.spec_layers() >= other.spec_layers()
        &&& forall|m: int| 0 <= m < self.spec_layers() ==> !#[trigger] self.merge_complete(m)
        &&& forall|m: int|
            #![trigger other.work_left(m)]
            0 <= m < other.spec_layers() && other.layer_kind(m) == 2 ==> if other.merge_complete(m) || (fuel > 0
                && other.work_left(m) < fuel) {
                self.layer_kind(m) == 0
            } else {
                self.merge_continued(other, m, if fuel > 0 {
                    fuel
                } else {
                    0
                })
            }
        &&& forall|m: int|
            #![trigger other.layer_batches(m)]
            other.merge_finishes(m, fuel) ==> m + 1 < self.spec_layers() && self.layer_kind(m + 1) == 1
                && self.layer_batches(m + 1).len() == 1 && merge_of(
                self.layer_batches(m + 1)[0],
                other.layer_batches(m),
                other.merge_frontier(m),
            )
    }

    /// Every merge in progress at or below layer `limit` stands at or above
    /// layer `from`, has read nothing yet and advances times to `frontier`.
    pub open spec fn merges_new(&self, from: int, limit: int, frontier: Seq<u64>) -> bool {
        forall|m: int|
            #![trigger self.merge_complete(m)]
            0 <= m <= limit && m < self.spec_layers() && self.layer_kind(m) == 2 && !self.merge_complete(m) ==> m
                >= from && self.work_left(m) == self.layer_len(m) && self.merge_frontier(m) == frontier
    }

    /// Layer `index` is the lowest that holds anything.
    pub open spec fn lowest_at(&self, index: int) -> bool {
        0 <= index < self.spec_layers() && self.lowest() == index
    }

    /// Where layer `index` of `other` was the lowest that held anything and
    /// held one batch or placeholder, the layer holds both that and
    /// `batch`. Where both are batches they are being merged; else the
    /// layer holds a complete merge of the one that is a batch, if any.
    /// Where the layer was the highest, it still is.
    pub open spec fn put_onto(&self, other: &Spine, batch: Option<Batch>, index: int) -> bool {
        other.lowest_at(index) && other.layer_kind(index) == 1 ==> {
            &&& self.layer_kind(index) == 2
            &&& self.layer_batches(index) == other.layer_batches(index) + one_batch(batch)
            &&& self.merge_complete(index) == (batch is None || other.layer_batches(index).len() == 0)
            &&& other.spec_layers() == index + 1 ==> self.spec_layers() == index + 1
        }
    }

    /// Where `other` held nothing at or below layer `index`, or held two
    /// batches in that layer and nothing below it, the lowest layer that
    /// holds anything holds `batch` alone. In the second case that is layer
    /// `index`: what the two batches came to has moved up.
    pub open spec fn put_alone(&self, other: &Spine, batch: Option<Batch>, index: int) -> bool {
        other.lowest() > index || other.lowest() >= other.spec_layers() || (other.lowest_at(index)
            && other.layer_kind(index) == 2) ==> {
            &&& self.layer_kind(self.lowest()) == 1
            &&& self.layer_batches(self.lowest()) == one_batch(batch)
            &&& other.lowest_at(index) ==> self.lowest() == index
        }
    }

    /// No layer up to layer `index` holds two batches.
    pub open spec fn single_to(&self, index: int) -> bool {
        forall|m: int| 0 <= m <= index && m < self.spec_layers() ==> #[trigger] self.layer_kind(m) != 2
    }

    /// Where `other` held something below layer `index` and no two batches
    /// in a layer up to it, that was rolled up. Where layer `index` held one
    /// batch, it was merged at once with what was rolled up and moved up,
    /// and the layer holds `batch` alone. Where the layer held nothing, it
    /// holds what was rolled up and `batch`.
    pub open spec fn rolled_under(&self, other: &Spine, batch: Option<Batch>, index: int) -> bool {
        other.lowest() < index && other.lowest() < other.spec_layers() && other.single_to(index) ==> {
            &&& self.lowest() == index
            &&& if index < other.spec_layers() && other.layer_kind(index) == 1 {
                self.layer_kind(index) == 1 && self.layer_batches(index) == one_batch(batch)
            } else {
                &&& self.layer_kind(index) == 2
                &&& batch is None ==> self.merge_complete(index)
            }
        }
    }

    /// The spine is `other` after `batch`, or a placeholder, was
    /// introduced at layer `index`.
    ///
    /// The batch stands in the lowest layer that is not vacant, as the
    /// newest batch of the layers. That is layer `index`, except where the
    /// layer is the only one that holds anything, holds the batch alone,
    /// and the batch is small enough for a lower layer: tidying then moved
    /// it down to the layer of its size.
    ///
    /// Every merge in progress was paid `fuel_for(index, effort)`. A merge
    /// at or below layer `index + 1` had less to read and was finished. A
    /// merge above it that was complete or had less to read was finished
    /// too, and its layer holds no two batches afterwards; any other is
    /// still in its layer and has read as many updates as there was fuel.
    /// Where a merge in progress above layer `index + 1` was finished and
    /// the layer above it held nothing, what it came to is among the
    /// batches of the layers.
    ///
    /// Where layer `index` was the lowest that held anything and held one
    /// batch, a merge of that batch with `batch` has begun in it, towards
    /// the advance frontier, and has read nothing yet; where the layer was
    /// the highest, it still is.
    ///
    /// Where layer `index` held one batch and one batch stood below it, the
    /// two were merged at once towards the advance frontier, and what the
    /// merge came to is among the batches of the layers.
    ///
    /// No merge that was in progress at or below layer `index + 1` is left:
    /// a merge in progress there began with this introduction. Where
    /// nothing stood below layer `index`, `put_onto` and `put_alone` say
    /// what the layer of the batch holds; where something stood below it,
    /// `rolled_under` does.
    pub open spec fn introduced(&self, other: &Spine, batch: Option<Batch>, index: nat) -> bool {
        &&& self.lowest() <= index
        &&& self.lowest() < self.spec_layers()
        &&& self.lowest() == (if self.spec_layers() == self.lowest() + 1 && self.layer_kind(self.lowest()) == 1
            && ceil_log2_spec(self.layer_len(self.lowest())) < index {
            ceil_log2_spec(self.layer_len(self.lowest())) as int
        } else {
            index as int
        })
        &&& batch is Some ==> self.merged().len() > 0 && self.merged().last() == batch->0
        &&& self.follows(other, batch)
        &&& forall|m: int|
            #![trigger other.work_left(m)]
            0 <= m < other.spec_layers() && other.layer_kind(m) == 2 ==> if other.merge_complete(m)
                || other.work_left(m) < fuel_for(index, other.spec_effort()) {
                m <= index + 1 || m >= self.spec_layers() || self.layer_kind(m) != 2
            } else {
                m > index + 1 && self.merge_continued(other, m, fuel_for(index, other.spec_effort()))
            }
        &&& forall|m: int|
            #![trigger other.layer_batches(m)]
            m > index + 1 && other.merge_finishes(m, fuel_for(index, other.spec_effort())) ==> self.has_merge_of(
                other.layer_batches(m),
                other.merge_frontier(m),
            )
        &&& batch is Some && other.begins_merge(index as int) ==> {
            &&& self.layer_kind(index as int) == 2
            &&& !self.merge_complete(index as int)
            &&& self.layer_batches(index as int) == seq![other.layer_batches(index as int)[0], batch->0]
            &&& self.merge_frontier(index as int) == other.spec_advance_frontier()
            &&& self.work_left(index as int) == other.layer_len(index as int) + batch->0@.updates.len()
            &&& other.spec_layers() == index + 1 ==> self.spec_layers() == index + 1
        }
        &&& other.rolls_one(index as int) ==> self.has_merge_of(
            seq![other.layer_batches(index as int)[0], other.layer_batches(other.lowest())[0]],
            other.spec_advance_frontier(),
        )
        &&& self.merges_new(index as int, index as int + 1, other.spec_advance_frontier())
        &&& self.put_onto(other, batch, index as int)
        &&& self.put_alone(other, batch, index as int)
        &&& self.rolled_under(other, batch, index as int)
    }

    /// Both spines have the same layers, effort and advance frontier.
    pub closed spec fn same_layers(&self, other: &Spine) -> bool {
        &&& self.merging@ == other.merging@
        &&& self.effort == other.effort
        &&& self.advance_frontier@ == other.advance_frontier@
    }

    /// Spines with the same layers agree in all that is said of layers.
    pub proof fn lemma_same_layers(&self, other: &Spine)
        requires
            self.same_layers(other),
        ensures
            self.merged() == other.merged(),
            self.spec_layers() == other.spec_layers(),
            self.lowest() == other.lowest(),
            self.spec_effort() == other.spec_effort(),
            self.spec_advance_frontier() == other.spec_advance_frontier(),
            forall|i: int| #[trigger]
                self.layer_kind(i) == other.layer_kind(i) && self.layer_len(i) == other.layer_len(i)
                    && self.work_left(i) == other.work_left(i) && self.merge_complete(i) == other.merge_complete(i)
                    && self.merge_frontier(i) == other.merge_frontier(i),
    {
    }

    /// How often the spine asks to be scheduled again as it is: once unless
    /// it is reduced.
    pub open spec fn asking(&self) -> int {
        if self.spec_reduced() {
            0
        } else {
            1
        }
    }

    /// The spine is `other` after each of `batches` was introduced, the
    /// first of them first, each at the layer that fits its size: the
    /// least `k` with at most `2^k` updates. After each introduction that
    /// left the layers not reduced the spine asked to be scheduled again:
    /// `asks` times in all.
    pub open spec fn released_from(&self, other: &Spine, batches: Seq<Batch>, asks: int) -> bool
        decreases batches.len(),
    {
        if batches.len() == 0 {
            self.same_layers(other) && asks == 0
        } else {
            exists|mid: Spine|
                mid.released_from(other, batches.drop_last(), asks - self.asking()) && #[trigger] self.introduced(
                    &mid,
                    Some(batches.last()),
                    ceil_log2_spec(batches.last()@.updates.len()),
                )
        }
    }

    /// What holds of a spine after a release holds of every spine with the
    /// same layers.
    proof fn lemma_released_same(&self, like: &Spine, other: &Spine, batches: Seq<Batch>, asks: int)
        requires
            self.same_layers(like),
            like.released_from(other, batches, asks),
        ensures
            self.released_from(other, batches, asks),
    {
        if batches.len() > 0 {
            assert(exists|mid: Spine|
                mid.released_from(other, batches.drop_last(), asks - like.asking()) && #[trigger] like.introduced(
                    &mid,
                    Some(batches.last()),
                    ceil_log2_spec(batches.last()@.updates.len()),
                ));
            let mid = choose|mid: Spine|
                mid.released_from(other, batches.drop_last(), asks - like.asking()) && #[trigger] like.introduced(
                    &mid,
                    Some(batches.last()),
                    ceil_log2_spec(batches.last()@.updates.len()),
                );
            assert(mid.released_from(other, batches.drop_last(), asks - self.asking()));
            let added = Some(batches.last());
            assert(like.follows(&mid, added));
            assert forall|m: int|
                0 <= m < self.spec_layers() && self.layer_kind(m) == 2 && !self.merge_complete(m)
                    implies #[trigger] self.merge_frontier(m) == mid.spec_advance_frontier() || (m
                < mid.spec_layers() && mid.layer_kind(m) == 2 && !mid.merge_complete(m) && self.merge_frontier(m)
                == mid.merge_frontier(m)) by {
                assert(like.merge_frontier(m) == self.merge_frontier(m));
            }
            assert forall|i: int| 0 <= i < self.merged().len() implies mid.accounts_for(
                #[trigger] self.merged()[i],
                added,
            ) by {
                assert(like.merged()[i] == self.merged()[i]);
            }
            assert(self.follows(&mid, added));
            let index = ceil_log2_spec(batches.last()@.updates.len()) as int;
            assert(like.merges_new(index, index + 1, mid.spec_advance_frontier()));
            assert forall|m: int|
                #![trigger self.merge_complete(m)]
                0 <= m <= index + 1 && m < self.spec_layers() && self.layer_kind(m) == 2 && !self.merge_complete(m)
                    implies m >= index && self.work_left(m) == self.layer_len(m) && self.merge_frontier(m)
                == mid.spec_advance_frontier() by {
                assert(!like.merge_complete(m));
            }
            assert(like.put_onto(&mid, added, index));
            assert(self.put_onto(&mid, added, index));
            assert(like.put_alone(&mid, added, index));
            assert(self.put_alone(&mid, added, index));
            assert(like.rolled_under(&mid, added, index));
            assert(self.rolled_under(&mid, added, index));
            assert(self.introduced(&mid, Some(batches.last()), ceil_log2_spec(batches.last()@.updates.len())));
        }
    }

    /// The spine is `other` after each of `batches` was introduced, as
    /// `released_from` says it.
    #[verifier::opaque]
    spec fn released_so_far(&self, other: &Spine, batches: Seq<Batch>, asks: int) -> bool {
        self.released_from(other, batches, asks)
    }

    /// The spine is `other` after `batch` was introduced at layer `index`,
    /// as `introduced` says it.
    #[verifier::opaque]
    spec fn introduced_so(&self, other: &Spine, batch: Option<Batch>, index: nat) -> bool {
        self.introduced(other, batch, index)
    }

    /// One batch more was introduced.
    proof fn lemma_released_more(&self, mid: &Spine, start: &Spine, other: &Spine, next: Seq<Batch>, asks: int)
        requires
            mid.same_layers(start),
            start.released_so_far(other, next.drop_last(), asks),
            next.len() > 0,
            self.introduced_so(mid, Some(next.last()), ceil_log2_spec(next.last()@.updates.len())),
        ensures
            self.released_so_far(other, next, asks + self.asking()),
    {
        reveal(Spine::released_so_far);
        reveal(Spine::introduced_so);
        mid.lemma_released_same(start, other, next.drop_last(), asks);
        assert(mid.released_from(other, next.drop_last(), asks + self.asking() - self.asking()));
    }

    /// A release from a spine is a release from every spine with the same
    /// layers.
    proof fn lemma_released_start(&self, other: &Spine, like: &Spine, batches: Seq<Batch>, asks: int)
        requires
            other.same_layers(like),
            self.released_from(other, batches, asks),
        ensures
            self.released_from(like, batches, asks),
        decreases batches.len(),
    {
        if batches.len() > 0 {
            let mid = choose|mid: Spine|
                mid.released_from(other, batches.drop_last(), asks - self.asking()) && #[trigger] self.introduced(
                    &mid,
                    Some(batches.last()),
                    ceil_log2_spec(batches.last()@.updates.len()),
                );
            mid.lemma_released_start(other, like, batches.drop_last(), asks - self.asking());
            assert(mid.released_from(like, batches.drop_last(), asks - self.asking()));
        }
    }

    /// The spine is ready for `batch` to be introduced at `index`: it is
    /// as at rest, but its layers end where the batch begins, and the batch
    /// ends where the batches that wait begin, or at the upper frontier. The
    /// batch is small enough for the layer, and the load leaves room for
    /// twice the size of the layer.
    pub closed spec fn accepts(&self, batch: Option<Batch>, index: nat) -> bool {
        &&& self.effort >= 1
        &&& fitting(self.merging@)
        &&& fueled(self.merging@, 0, self.merging@.len() as int, 0)
        &&& chained(
            self.merging@,
            0,
            self.merging@.len() as int,
            link_of(batch, merging_end(self.pending@, self.upper@)),
        )
        &&& batch is Some ==> batch->0@.upper == merging_end(self.pending@, self.upper@)
        &&& pending_linked(self.pending@, self.upper@)
        &&& self.load() + 2 * pow2(index) <= self.capacity()
        &&& batch_len(batch) <= pow2(index)
    }

    /// Every merge in progress has been paid `fuel` units since it last
    /// stood at rest: the bound on the work left in it holds with `fuel`
    /// to spare.
    pub closed spec fn paid(&self, fuel: int) -> bool {
        fueled(self.merging@, 0, self.merging@.len() as int, credit_of(fuel))
    }

    /// Everything but the layers is the same in both spines.
    spec fn same_but_layers(&self, other: &Spine) -> bool {
        &&& self.operator == other.operator
        &&& self.advance_frontier == other.advance_frontier
        &&& self.through_frontier == other.through_frontier
        &&& self.pending == other.pending
        &&& self.upper == other.upper
        &&& self.effort == other.effort
        &&& self.activator == other.activator
    }

    /// Everything but the layers is as in `other`.
    pub closed spec fn unchanged_but_layers(&self, other: &Spine) -> bool {
        self.same_but_layers(other)
    }

    /// Everything but the layers and the batches that wait is as in
    /// `other`.
    pub closed spec fn unchanged_but_layers_and_waiting(&self, other: &Spine) -> bool {
        &&& self.operator == other.operator
        &&& self.advance_frontier == other.advance_frontier
        &&& self.through_frontier == other.through_frontier
        &&& self.upper == other.upper
        &&& self.effort == other.effort
        &&& self.activator == other.activator
    }

    /// The spine holds the layers and the waiting batches of `other`.
    pub closed spec fn holds_what(&self, other: &Spine) -> bool {
        &&& self.merging@ == other.merging@
        &&& self.pending@ == other.pending@
    }

    /// The spine is `other` after its advance frontier was set to
    /// `frontier`: with the empty frontier it holds nothing, with any other
    /// it holds what `other` holds; the rest is as in `other`.
    pub closed spec fn advanced_from(&self, other: &Spine, frontier: Seq<u64>) -> bool {
        &&& self.advance_frontier@ == frontier
        &&& self.through_frontier@ == other.through_frontier@
        &&& self.upper@ == other.upper@
        &&& self.effort == other.effort
        &&& self.operator == other.operator
        &&& self.activator == other.activator
        &&& frontier.len() == 0 ==> self.merging@.len() == 0 && self.pending@.len() == 0
        &&& frontier.len() > 0 ==> self.holds_what(other)
    }

    /// Both spines have the same frontiers and effort and hold the same.
    pub closed spec fn same_state(&self, other: &Spine) -> bool {
        &&& self.advance_frontier@ == other.advance_frontier@
        &&& self.through_frontier@ == other.through_frontier@
        &&& self.upper@ == other.upper@
        &&& self.effort == other.effort
        &&& self.operator == other.operator
        &&& self.activator == other.activator
        &&& self.holds_what(other)
    }

    /// Eight times the capacity fits in an `isize`.
    proof fn lemma_capacity(&self)
        requires
            self.effort >= 1,
        ensures
            0 <= 8 * self.capacity() <= isize::MAX,
            8 * self.effort * self.capacity() <= isize::MAX,
    {
        let e = self.effort as int;
        let c = (isize::MAX as int) / (8 * e);
        assert(0 <= (8 * e) * c <= isize::MAX) by (nonlinear_arith)
            requires
                e >= 1,
                c == (isize::MAX as int) / (8 * e),
        ;
        assert(8 * c <= (8 * e) * c) by (nonlinear_arith)
            requires
                e >= 1,
                c >= 0,
        ;
        assert(c >= 0) by (nonlinear_arith)
            requires
                e >= 1,
                c == (isize::MAX as int) / (8 * e),
        ;
        assert(8 * e * c == (8 * e) * c) by (nonlinear_arith);
    }

    /// The capacity is the greatest `isize` divided by eight times the
    /// effort.
    pub proof fn lemma_capacity_value(&self)
        ensures
            self.capacity() == (isize::MAX as int) / (8 * (self.spec_effort() as int)),
    {
    }

    /// What `unchanged_but_layers` keeps: the frontiers, the effort and
    /// the capacity.
    pub proof fn lemma_unchanged_but_layers(&self, other: &Spine)
        requires
            self.unchanged_but_layers(other),
        ensures
            self.spec_upper() == other.spec_upper(),
            self.spec_advance_frontier() == other.spec_advance_frontier(),
            self.spec_distinguish_frontier() == other.spec_distinguish_frontier(),
            self.spec_effort() == other.spec_effort(),
            self.capacity() == other.capacity(),
    {
    }

    /// The batches that wait are the batches whose views are `waiting`.
    pub proof fn lemma_waiting(&self)
        ensures
            self.waiting().len() == self.pending().len(),
            forall|i: int| 0 <= i < self.pending().len() ==> #[trigger] self.waiting()[i] == self.pending()[i]@,
    {
    }

    /// A spine without layers holds no batches in its layers.
    pub proof fn lemma_no_layers(&self)
        requires
            self.spec_layers() == 0,
        ensures
            self.merged() == Seq::<Batch>::empty(),
    {
    }

    /// Every layer is vacant, holds one batch or holds two.
    pub proof fn lemma_layer_kinds(&self, i: int)
        ensures
            self.layer_kind(i) == 0 || self.layer_kind(i) == 1 || self.layer_kind(i) == 2,
    {
    }

    /// In a spine at rest a layer holds no more updates than twice its
    /// size, and no more than its size where it holds one batch.
    pub proof fn lemma_layer_sizes(&self, i: int)
        requires
            self.wf(),
            0 <= i < self.spec_layers(),
        ensures
            self.layer_kind(i) == 0 ==> self.layer_len(i) == 0,
            self.layer_kind(i) == 1 ==> self.layer_len(i) <= pow2(i as nat),
            self.layer_kind(i) == 2 ==> self.layer_len(i) <= 2 * pow2(i as nat),
    {
        assert(self.merging@[i].fits(i as nat));
        lemma_pow2_positive(i as nat);
    }

    /// In a spine at rest, below a layer that holds two batches less is
    /// accounted than the size of that layer: the work left in the merge and
    /// four times what is accounted below come to less than four times the
    /// size of the layer.
    pub proof fn lemma_merges_ahead(&self, k: int)
        requires
            self.wf(),
            0 <= k < self.spec_layers(),
            self.layer_kind(k) == 2,
        ensures
            0 <= self.work_left(k),
            self.work_left(k) + 4 * self.accounted_below(k) < 4 * pow2(k as nat),
            0 <= self.accounted_below(k) < pow2(k as nat),
    {
        assert(self.merging@[k].double());
        assert(self.merging@[k].fits(k as nat));
        lemma_remaining_nonnegative(self.merging@[k], k as nat);
        lemma_below_nonnegative(self.merging@, k);
    }

    /// In a spine at rest each batch begins where the one before it ends,
    /// and the last ends at the upper frontier of the spine.
    pub proof fn lemma_live_linked(&self)
        requires
            self.wf(),
        ensures
            linked(self.live()),
            self.live().len() > 0 ==> self.live()[self.live().len() - 1]@.upper == self.spec_upper(),
    {
        let end = merging_end(self.pending@, self.upper@);
        lemma_merged_linked(self.merging@, self.merging@.len() as int, end);
        let a = self.merged();
        let b = self.pending();
        let all = self.live();
        assert forall|i: int| 0 <= i < all.len() - 1 implies (#[trigger] all[i])@.upper == all[i + 1]@.lower by {
            if i >= a.len() {
                assert(all[i] == b[i - a.len()]);
                assert(all[i + 1] == b[i - a.len() + 1]);
            } else if i + 1 < a.len() {
                assert(all[i] == a[i]);
                assert(all[i + 1] == a[i + 1]);
            } else {
                assert(all[i] == a[i]);
                assert(all[i + 1] == b[0]);
            }
        }
        if all.len() > 0 {
            if b.len() > 0 {
                assert(all[all.len() - 1] == b[b.len() - 1]);
            } else {
                assert(all =~= a);
            }
        }
    }

    /// A query time is settled if it is beyond the advance frontier and
    /// beyond the frontier of every merge in progress.
    pub proof fn lemma_settled(&self, query: u64)
        ensures
            self.settled(query) == (beyond(self.spec_advance_frontier(), query) && self.merges_settled(query)),
    {
    }

    /// Where every merge in progress advances times to the advance frontier,
    /// or advances none, every time beyond the advance frontier is settled.
    pub proof fn lemma_settled_beyond(&self, query: u64)
        requires
            forall|m: int|
                0 <= m < self.spec_layers() && self.layer_kind(m) == 2 && !self.merge_complete(m)
                    ==> #[trigger] self.merge_frontier(m) == self.spec_advance_frontier() || self.merge_frontier(
                    m,
                ).len() == 0,
            beyond(self.spec_advance_frontier(), query),
        ensures
            self.settled(query),
    {
        assert forall|i: int| 0 <= i < self.merging@.len() implies (#[trigger] self.merging@[i]).settled(query) by {
            match self.merging@[i] {
                MergeState::Double(MergeVariant::InProgress(_, _, frontier, _)) => {
                    assert(self.layer_kind(i) == 2 && !self.merge_complete(i));
                    assert(self.merge_frontier(i) == frontier_or_empty(frontier));
                },
                _ => {},
            }
        }
    }

    /// The greatest time is always settled: what a spine accumulates over
    /// all times is never changed by a merge.
    pub proof fn lemma_settled_at_last(&self)
        ensures
            self.settled(u64::MAX),
    {
        assert forall|i: int| 0 <= i < self.merging@.len() implies (#[trigger] self.merging@[i]).settled(u64::MAX) by {
            match self.merging@[i] {
                MergeState::Double(MergeVariant::InProgress(_, _, frontier, _)) => {
                    assert(beyond(frontier_or_empty(frontier), u64::MAX));
                },
                _ => {},
            }
        }
    }

    /// A spine holds what it holds.
    pub proof fn lemma_holds_refl(&self)
        ensures
            self.holds(self, None),
    {
    }

    /// A spine whose layers are balanced with those of `other`, and which
    /// is like `other` in the rest, holds what `other` held and the batch.
    proof fn lemma_holds(&self, other: &Spine, added: Option<Batch>)
        requires
            balanced(other.merging@, self.merging@, other.advance_frontier@, None, added),
            self.pending@ == other.pending@,
            self.advance_frontier@ == other.advance_frontier@,
        ensures
            self.holds(other, added),
    {
        reveal(balanced);
        assert forall|q: u64| other.settled(q) implies #[trigger] self.settled(q) by {
            assert(quiet(self.merging@, other.advance_frontier@, q));
        }
        assert forall|d: u64, q: u64|
            #![trigger self.accumulation(d, q)]
            other.settled(q) implies congruent(
            self.accumulation(d, q),
            other.accumulation(d, q) + match added {
                Some(b) => accumulated(b@.updates, d, q),
                None => 0,
            },
        ) by {
            assert(congruent(
                layers_acc(self.merging@, self.merging@.len() as int, d, q) + batch_acc(None, d, q),
                layers_acc(other.merging@, other.merging@.len() as int, d, q) + batch_acc(added, d, q),
            ));
        }
    }

    /// The spine records the updates `put` from `since` on: every time
    /// beyond `since` is settled, and what the spine accumulates up to it is
    /// what `put` accumulates.
    pub open spec fn records(&self, put: Seq<Update>, since: Seq<u64>) -> bool {
        &&& forall|q: u64| beyond(since, q) ==> #[trigger] self.settled(q)
        &&& forall|d: u64, q: u64|
            beyond(since, q) ==> congruent(#[trigger] self.accumulation(d, q), accumulated(put, d, q))
    }

    /// A spine without batches records no updates, from the least time on.
    pub proof fn lemma_records_nothing(&self)
        requires
            self.spec_layers() == 0,
            self.waiting().len() == 0,
            self.spec_advance_frontier() == seq![0u64],
        ensures
            self.records(Seq::<Update>::empty(), seq![0u64]),
    {
        assert forall|d: u64, q: u64| beyond(seq![0u64], q) implies congruent(
            #[trigger] self.accumulation(d, q),
            accumulated(Seq::<Update>::empty(), d, q),
        ) by {
            self.lemma_accumulation(d, q);
            assert(self.live() =~= Seq::<Batch>::empty());
        }
    }

    /// A spine that holds what `other` held and one batch more records the
    /// updates that `other` recorded and those of the batch.
    pub proof fn lemma_records_more(&self, other: &Spine, added: Option<Batch>, put: Seq<Update>, since: Seq<u64>)
        requires
            other.records(put, since),
            self.holds(other, added),
        ensures
            self.records(put + one_updates(added), since),
    {
        assert forall|d: u64, q: u64| beyond(since, q) implies congruent(
            #[trigger] self.accumulation(d, q),
            accumulated(put + one_updates(added), d, q),
        ) by {
            assert(other.settled(q));
            assert(congruent(other.accumulation(d, q), accumulated(put, d, q)));
            lemma_accumulated_concat(put, one_updates(added));
        }
    }

    /// After the advance frontier was set to a frontier that is not empty,
    /// the spine records what it recorded, from every time on that is
    /// beyond both the new frontier and the frontier from which it recorded
    /// before.
    pub proof fn lemma_records_advanced(&self, other: &Spine, frontier: Seq<u64>, put: Seq<Update>, since: Seq<u64>)
        requires
            other.records(put, since),
            self.advanced_from(other, frontier),
            frontier.len() > 0,
        ensures
            self.records(put, since + frontier),
    {
        self.lemma_advanced_from(other, frontier);
        assert forall|q: u64| beyond(since + frontier, q) implies beyond(since, q) && beyond(frontier, q) by {
            assert forall|i: int| 0 <= i < since.len() implies #[trigger] since[i] <= q by {
                assert((since + frontier)[i] == since[i]);
            }
            assert forall|i: int| 0 <= i < frontier.len() implies #[trigger] frontier[i] <= q by {
                assert((since + frontier)[since.len() + i] == frontier[i]);
            }
        }
        assert forall|q: u64| beyond(since + frontier, q) implies #[trigger] self.settled(q) by {
            assert(other.settled(q));
            other.lemma_settled(q);
            self.lemma_settled(q);
            assert(self.merges_settled(q) == other.merges_settled(q));
        }
        assert forall|d: u64, q: u64| beyond(since + frontier, q) implies congruent(
            #[trigger] self.accumulation(d, q),
            accumulated(put, d, q),
        ) by {
            assert(self.accumulation(d, q) == other.accumulation(d, q));
            assert(congruent(other.accumulation(d, q), accumulated(put, d, q)));
        }
    }

    /// A spine that records updates from a frontier on records them from
    /// every frontier on with no other times beyond it.
    pub proof fn lemma_records_later(&self, put: Seq<Update>, since: Seq<u64>, later: Seq<u64>)
        requires
            self.records(put, since),
            forall|q: u64| #[trigger] beyond(later, q) ==> beyond(since, q),
        ensures
            self.records(put, later),
    {
        assert forall|q: u64| beyond(later, q) implies #[trigger] self.settled(q) by {
            assert(beyond(since, q));
        }
        assert forall|d: u64, q: u64| beyond(later, q) implies congruent(
            #[trigger] self.accumulation(d, q),
            accumulated(put, d, q),
        ) by {
            assert(beyond(since, q));
        }
    }

    /// The round trip. The spine records the updates `put` from its
    /// advance frontier on; its logically empty batches hold no updates; and
    /// `storage` holds the batches of a cursor through a frontier that
    /// leaves no waiting batch out. Then what the cursor collects is the
    /// consolidated form of `put` with its times advanced to the advance
    /// frontier: in order of data and time, one update for each, the
    /// differences added up, none of them zero.
    pub proof fn lemma_round_trip(&self, put: Seq<Update>, upper: Seq<u64>, storage: Seq<Batch>, got: Seq<Update>)
        requires
            self.records(put, self.spec_advance_frontier()),
            forall|i: int|
                0 <= i < self.live().len() && (#[trigger] self.live()[i])@.lower == self.live()[i]@.upper
                    ==> self.live()[i]@.updates.len() == 0,
            forall|i: int| 0 <= i < self.pending().len() ==> frontier_le((#[trigger] self.pending()[i])@.upper, upper),
            views(storage) == views(selected(self.merged(), None) + selected(self.pending(), Some(upper))),
            consolidated(got),
            equivalent(got, advanced(concat_updates(storage), self.spec_advance_frontier())),
        ensures
            equivalent(got, advanced(put, self.spec_advance_frontier())),
            got == canonical(advanced(put, self.spec_advance_frontier())),
    {
        let since = self.spec_advance_frontier();
        let chosen = selected(self.merged(), None) + selected(self.pending(), Some(upper));
        lemma_selected_all(self.pending(), upper);
        lemma_selected_concat(self.merged(), self.pending(), None);
        assert(chosen == selected(self.live(), None));
        lemma_concat_views(storage, chosen);
        let held = concat_updates(storage);
        let a = advanced(held, since);
        let b = advanced(put, since);
        assert forall|d: u64, q: u64| beyond(since, q) implies congruent(
            #[trigger] accumulated(a, d, q),
            accumulated(b, d, q),
        ) by {
            lemma_concat_accumulated(chosen, d, q);
            lemma_selected_accumulates(self.live(), d, q);
            self.lemma_accumulation(d, q);
            assert(self.settled(q));
            lemma_accumulated_advanced(held, since, d, q);
            lemma_accumulated_advanced(put, since, d, q);
        }
        assert(agree_from(a, b, since)) by {
            assert forall|d: u64, q: u64|
                #![trigger accumulated(a, d, q)]
                #![trigger accumulated(b, d, q)]
                beyond(since, q) implies congruent(accumulated(a, d, q), accumulated(b, d, q)) by {
                assert(beyond(since, q) ==> congruent(accumulated(a, d, q), accumulated(b, d, q)));
            }
        }
        lemma_advanced_beyond(held, since);
        lemma_advanced_beyond(put, since);
        lemma_agree_equivalent(a, b, since);
        lemma_equivalent_trans(got, a, b);
        lemma_canonical(got, b);
    }

    /// What a spine accumulates is what its batches accumulate.
    pub proof fn lemma_accumulation(&self, data: u64, query: u64)
        ensures
            self.accumulation(data, query) == accumulated_all(self.live(), data, query),
    {
        lemma_layers_acc_live(self.merging@, self.merging@.len() as int, data, query);
        lemma_accumulated_all_concat(self.merged(), self.pending(), data, query);
    }

    /// What `advanced_from` says of the parts of the spine that can be
    /// observed.
    pub proof fn lemma_advanced_from(&self, other: &Spine, frontier: Seq<u64>)
        requires
            self.advanced_from(other, frontier),
        ensures
            self.spec_advance_frontier() == frontier,
            self.spec_distinguish_frontier() == other.spec_distinguish_frontier(),
            self.spec_upper() == other.spec_upper(),
            self.spec_effort() == other.spec_effort(),
            self.capacity() == other.capacity(),
            frontier.len() == 0 ==> self.spec_layers() == 0 && self.waiting().len() == 0 && self.load() == 0,
            frontier.len() > 0 ==> self.spec_layers() == other.spec_layers() && self.waiting() == other.waiting()
                && self.load() == other.load(),
            frontier.len() > 0 ==> self.merged() == other.merged() && self.pending() == other.pending(),
            frontier.len() > 0 ==> forall|i: int| #[trigger]
                self.layer_kind(i) == other.layer_kind(i) && self.layer_len(i) == other.layer_len(i)
                    && self.work_left(i) == other.work_left(i),
            frontier.len() > 0 ==> forall|d: u64, q: u64| #[trigger]
                self.accumulation(d, q) == other.accumulation(d, q),
            frontier.len() > 0 ==> forall|q: u64| #[trigger]
                self.merges_settled(q) == other.merges_settled(q),
    {
        if frontier.len() == 0 {
            assert(self.pending@ =~= Seq::<Batch>::empty());
        }
    }

    /// A spine that holds what another holds has the same layers and the
    /// same waiting batches.
    pub proof fn lemma_holds_what(&self, other: &Spine)
        requires
            self.holds_what(other),
        ensures
            self.merged() == other.merged(),
            self.pending() == other.pending(),
            self.waiting() == other.waiting(),
            self.spec_layers() == other.spec_layers(),
            self.lowest() == other.lowest(),
            forall|i: int| #[trigger]
                self.layer_kind(i) == other.layer_kind(i) && self.layer_len(i) == other.layer_len(i)
                    && self.work_left(i) == other.work_left(i),
            forall|d: u64, q: u64| #[trigger] self.accumulation(d, q) == other.accumulation(d, q),
            forall|q: u64| #[trigger] self.merges_settled(q) == other.merges_settled(q),
    {
    }

    /// Spines in the same state have the same frontiers and effort and hold
    /// the same.
    pub proof fn lemma_same_state(&self, other: &Spine)
        requires
            self.same_state(other),
        ensures
            self.holds_what(other),
            self.spec_upper() == other.spec_upper(),
            self.spec_advance_frontier() == other.spec_advance_frontier(),
            self.spec_distinguish_frontier() == other.spec_distinguish_frontier(),
            self.spec_effort() == other.spec_effort(),
    {
    }

    /// Setting the advance frontier twice to the same frontier is setting
    /// it once: the second time nothing changes.
    pub proof fn lemma_advance_by_idempotent(first: &Spine, second: &Spine, third: &Spine, frontier: Seq<u64>)
        requires
            second.advanced_from(first, frontier),
            third.advanced_from(second, frontier),
        ensures
            third.same_state(second),
    {
        if frontier.len() == 0 {
            assert(third.merging@ =~= second.merging@);
            assert(third.pending@ =~= second.pending@);
        }
    }

    /// A spine at rest is ready for a placeholder at any index that the
    /// load leaves room for.
    pub proof fn lemma_accepts_placeholder(&self, index: nat)
        requires
            self.wf(),
            self.load() + 2 * pow2(index) <= self.capacity(),
        ensures
            self.accepts(None, index),
    {
    }

    /// A spine at rest in which no batch waits is ready for a batch that
    /// begins and ends at its upper frontier, at any index that fits the
    /// batch and that the load leaves room for.
    pub proof fn lemma_accepts_batch(&self, batch: Batch, index: nat)
        requires
            self.wf(),
            self.waiting().len() == 0,
            batch@.lower == self.spec_upper(),
            batch@.upper == self.spec_upper(),
            batch@.updates.len() <= pow2(index),
            self.load() + 2 * pow2(index) <= self.capacity(),
        ensures
            self.accepts(Some(batch), index),
    {
        assert(self.pending@.len() == views(self.pending@).len());
    }

    /// A spine without batches that scales the fuel of each batch by
    /// `effort`, or by one where `effort` is zero. Its frontiers hold the
    /// least time.
    pub fn with_effort(effort: usize, operator: OperatorInfo, activator: Option<Activator>) -> (spine: Spine)
        ensures
            spine.wf(),
            spine.spec_effort() == if effort == 0 {
                1
            } else {
                effort as nat
            },
            spine.spec_upper() == seq![0u64],
            spine.spec_advance_frontier() == seq![0u64],
            spine.spec_distinguish_frontier() == seq![0u64],
            spine.spec_layers() == 0,
            spine.waiting().len() == 0,
            spine.load() == 0,
            spine.spec_activator() == activator,
    {
        let mut effort = effort;
        // Zero effort is replaced by one.
        if effort == 0 {
            effort = 1;
        }
        let mut advance_frontier: Vec<u64> = Vec::new();
        advance_frontier.push(minimum());
        let mut through_frontier: Vec<u64> = Vec::new();
        through_frontier.push(minimum());
        let mut upper: Vec<u64> = Vec::new();
        upper.push(0);
        let spine = Spine {
            operator,
            advance_frontier,
            through_frontier,
            merging: Vec::new(),
            pending: Vec::new(),
            upper,
            effort,
            activator,
        };
        proof {
            spine.lemma_capacity();
            assert(spine.upper@ =~= seq![0u64]);
            assert(spine.advance_frontier@ =~= seq![0u64]);
            assert(spine.through_frontier@ =~= seq![0u64]);
            assert(views(spine.pending@) =~= Seq::<BatchView>::empty());
        }
        spine
    }

    /// A spine without batches, with effort one.
    pub fn new(info: OperatorInfo, activator: Option<Activator>) -> (spine: Spine)
        ensures
            spine.wf(),
            spine.spec_effort() == 1,
            spine.spec_upper() == seq![0u64],
            spine.spec_advance_frontier() == seq![0u64],
            spine.spec_distinguish_frontier() == seq![0u64],
            spine.spec_layers() == 0,
            spine.waiting().len() == 0,
            spine.load() == 0,
            spine.spec_activator() == activator,
    {
        Self::with_effort(1, info, activator)
    }

    /// The handle by which the runtime is asked to schedule the operator
    /// again, if the spine was given one. The spine says when it asks to be
    /// scheduled again; whoever holds the spine makes the call.
    pub fn activator(&self) -> (handle: &Option<Activator>)
        ensures
            *handle == self.spec_activator(),
    {
        &self.activator
    }

    /// The frontier to which merges advance times.
    pub fn advance_frontier(&self) -> (frontier: &[u64])
        ensures
            frontier@ == self.spec_advance_frontier(),
    {
        self.advance_frontier.as_slice()
    }

    /// The frontier up to which batches are kept apart for cursors.
    pub fn distinguish_frontier(&self) -> (frontier: &[u64])
        ensures
            frontier@ == self.spec_distinguish_frontier(),
    {
        self.through_frontier.as_slice()
    }

    /// The frontier up to which batches have been inserted.
    pub fn upper(&self) -> (frontier: &[u64])
        ensures
            frontier@ == self.spec_upper(),
    {
        self.upper.as_slice()
    }

    /// Is there nothing left to merge: no layer with two batches, and at
    /// most one layer with a batch?
    pub fn reduced(&self) -> (r: bool)
        ensures
            r == self.spec_reduced(),
    {
        let mut non_empty: usize = 0;
        let mut index: usize = 0;
        while index < self.merging.len()
            invariant
                index <= self.merging@.len(),
                no_double_below(self.merging@, index as int),
                non_empty == nontrivial_below(self.merging@, index as int),
                non_empty <= 1,
            decreases self.merging@.len() - index,
        {
            if self.merging[index].is_double() {
                return false;
            }
            if self.merging[index].non_trivial() {
                non_empty += 1;
            }
            if non_empty > 1 {
                proof {
                    lemma_nontrivial_monotone(self.merging@, index + 1, self.merging@.len() as int);
                }
                return false;
            }
            index += 1;
        }
        true
    }

    /// For each layer, what it holds and how many updates: 0 for nothing, 1
    /// for one batch or placeholder, 2 for two batches or what their merge
    /// came to.
    pub fn describe(&self) -> (summary: Vec<(usize, usize)>)
        requires
            self.wf(),
        ensures
            summary@.len() == self.spec_layers(),
            forall|i: int|
                0 <= i < summary@.len() ==> (#[trigger] summary@[i]).0 == self.layer_kind(i) && summary@[i].1
                    == self.layer_len(i),
    {
        let mut summary: Vec<(usize, usize)> = Vec::new();
        let mut index: usize = 0;
        proof {
            lemma_pending_cost_nonnegative(self.pending@);
            self.lemma_capacity();
        }
        while index < self.merging.len()
            invariant
                index <= self.merging@.len(),
                summary@.len() == index,
                self.wf(),
                pending_cost(self.pending@) >= 0,
                8 * self.capacity() <= isize::MAX,
                forall|i: int|
                    0 <= i < index ==> (#[trigger] summary@[i]).0 == self.layer_kind(i) && summary@[i].1
                        == self.layer_len(i),
            decreases self.merging@.len() - index,
        {
            proof {
                assert(self.merging@[index as int].fits(index as nat));
                if !self.merging@[index as int].vacant() {
                    lemma_index_bound(self.merging@, index as int);
                }
            }
            let entry = match &self.merging[index] {
                MergeState::Vacant => (0, 0),
                MergeState::Single(_) => (1, self.merging[index].len()),
                MergeState::Double(_) => (2, self.merging[index].len()),
            };
            summary.push(entry);
            index += 1;
        }
        summary
    }

    /// Takes a cursor into the batch and a copy of the batch, if the batch
    /// is to be included.
    fn take_batch(wanted: bool, batch: &Batch, cursors: &mut Vec<Cursor>, storage: &mut Vec<Batch>)
        requires
            old(cursors)@.len() == old(storage)@.len(),
            forall|i: int| 0 <= i < old(cursors)@.len() ==> (#[trigger] old(cursors)@[i])@ == 0,
        ensures
            final(cursors)@.len() == final(storage)@.len(),
            forall|i: int| 0 <= i < final(cursors)@.len() ==> (#[trigger] final(cursors)@[i])@ == 0,
            views(final(storage)@) == if wanted {
                views(old(storage)@).push(batch@)
            } else {
                views(old(storage)@)
            },
    {
        if wanted {
            cursors.push(batch.cursor());
            storage.push(batch.duplicate());
            proof {
                assert(views(storage@) =~= views(old(storage)@).push(batch@));
            }
        }
    }

    /// Does `upper` straddle one of the waiting batches: does it ask for
    /// some but not all of the updates of a batch?
    pub fn straddled_by(&self, upper: &[u64]) -> (r: bool)
        ensures
            r == straddled(self.pending(), upper@),
    {
        let mut position: usize = 0;
        while position < self.pending.len()
            invariant
                position <= self.pending@.len(),
                forall|i: int| 0 <= i < position ==> !straddles(#[trigger] self.pending@[i], upper@),
            decreases self.pending@.len() - position,
        {
            let batch = &self.pending[position];
            if !batch.is_empty() {
                let include_lower = frontier_dominates(batch.lower().as_slice(), upper);
                let include_upper = frontier_dominates(batch.upper().as_slice(), upper);
                if include_lower != include_upper && !frontier_eq(upper, batch.lower().as_slice()) {
                    proof {
                        assert(straddles(self.pending@[position as int], upper@));
                    }
                    return true;
                }
            }
            position += 1;
        }
        false
    }

    /// A cursor over the batches that end at or before `upper`: the
    /// batches of the layers and those of the waiting batches that `upper`
    /// includes, without the logically empty ones. The cursor advances times
    /// to the advance frontier.
    ///
    /// The trace must not be closed, `upper` must dominate the distinguish
    /// frontier, and it must not straddle a waiting batch: such a frontier
    /// asks for some but not all of the updates of that batch, and there is
    /// no cursor for it. `straddled_by` tests for it. For every other
    /// frontier there is a cursor.
    pub fn cursor_through(&mut self, upper: &[u64]) -> (result: Option<(CursorList, Vec<Batch>)>)
        requires
            old(self).wf(),
            old(self).spec_advance_frontier().len() > 0,
            frontier_le(old(self).spec_distinguish_frontier(), upper@),
            !straddled(old(self).pending(), upper@),
        ensures
            *final(self) == *old(self),
            result is Some,
            match result {
                Some((list, storage)) => {
                    &&& views(storage@) == views(
                        selected(old(self).merged(), None) + selected(old(self).pending(), Some(upper@)),
                    )
                    &&& list.wf(storage@)
                    &&& list.spec_since() == old(self).spec_advance_frontier()
                    &&& list.remaining(storage@) == advanced(
                        concat_updates(storage@),
                        old(self).spec_advance_frontier(),
                    )
                },
                None => true,
            },
    {
        let mut cursors: Vec<Cursor> = Vec::new();
        let mut storage: Vec<Batch> = Vec::new();
        let ghost layers = self.merging@;
        let ghost mut taken: Seq<Batch> = Seq::empty();
        let mut index: usize = self.merging.len();
        proof {
            assert(views(storage@) =~= views(selected(taken, None)));
            assert(taken + merged_live(layers, index as int) =~= merged_live(layers, layers.len() as int));
        }
        while index > 0
            invariant
                index <= self.merging@.len(),
                self.merging@ == layers,
                cursors@.len() == storage@.len(),
                forall|i: int| 0 <= i < cursors@.len() ==> (#[trigger] cursors@[i])@ == 0,
                taken + merged_live(layers, index as int) == merged_live(layers, layers.len() as int),
                views(storage@) == views(selected(taken, None)),
            decreases index,
        {
            index -= 1;
            let ghost before = taken;
            match &self.merging[index] {
                MergeState::Double(MergeVariant::InProgress(batch1, batch2, _, _)) => {
                    Self::take_batch(!batch1.is_empty(), batch1, &mut cursors, &mut storage);
                    proof {
                        lemma_selected_push(taken, *batch1, None);
                        taken = taken.push(*batch1);
                    }
                    Self::take_batch(!batch2.is_empty(), batch2, &mut cursors, &mut storage);
                    proof {
                        lemma_selected_push(taken, *batch2, None);
                        taken = taken.push(*batch2);
                        assert(taken =~= before + layer_live(layers[index as int]));
                    }
                },
                MergeState::Double(MergeVariant::Complete(Some(batch))) => {
                    Self::take_batch(!batch.is_empty(), batch, &mut cursors, &mut storage);
                    proof {
                        lemma_selected_push(taken, *batch, None);
                        taken = taken.push(*batch);
                        assert(taken =~= before + layer_live(layers[index as int]));
                    }
                },
                MergeState::Single(Some(batch)) => {
                    Self::take_batch(!batch.is_empty(), batch, &mut cursors, &mut storage);
                    proof {
                        lemma_selected_push(taken, *batch, None);
                        taken = taken.push(*batch);
                        assert(taken =~= before + layer_live(layers[index as int]));
                    }
                },
                _ => {
                    proof {
                        assert(taken =~= before + layer_live(layers[index as int]));
                    }
                },
            }
            proof {
                assert(taken + merged_live(layers, index as int) =~= before + merged_live(layers, index + 1));
            }
        }
        proof {
            assert(taken + merged_live(layers, 0) =~= taken);
        }
        let ghost merged = taken;
        let ghost mut chosen: Seq<Batch> = selected(merged, None);
        let mut position: usize = 0;
        proof {
            assert(self.pending@.take(0) =~= Seq::<Batch>::empty());
            assert(selected(merged, None) + selected(self.pending@.take(0), Some(upper@)) =~= selected(merged, None));
        }
        while position < self.pending.len()
            invariant
                position <= self.pending@.len(),
                cursors@.len() == storage@.len(),
                forall|i: int| 0 <= i < cursors@.len() ==> (#[trigger] cursors@[i])@ == 0,
                merged == merged_live(self.merging@, self.merging@.len() as int),
                chosen == selected(merged, None) + selected(self.pending@.take(position as int), Some(upper@)),
                views(storage@) == views(chosen),
            decreases self.pending@.len() - position,
        {
            let batch = &self.pending[position];
            let ghost seen = self.pending@.take(position as int);
            proof {
                assert(self.pending@.take(position + 1) =~= seen.push(*batch));
                lemma_selected_push(seen, *batch, Some(upper@));
            }
            if !batch.is_empty() {
                let include_upper = frontier_dominates(batch.upper().as_slice(), upper);
                Self::take_batch(include_upper, batch, &mut cursors, &mut storage);
                proof {
                    if include_upper {
                        assert(chosen.push(*batch) =~= selected(merged, None) + selected(seen, Some(upper@)).push(*batch));
                        chosen = chosen.push(*batch);
                    }
                }
            }
            position += 1;
        }
        proof {
            assert(self.pending@.take(position as int) =~= self.pending@);
        }
        let list = CursorList::new(cursors, &storage, self.advance_frontier.as_slice());
        Some((list, storage))
    }

    /// Applies `f` to every batch of the spine once, in the order in which
    /// the batches were inserted, and hands back what `f` gave.
    pub fn map_batches<U, F: Fn(&Batch) -> U>(&mut self, f: F) -> (results: Vec<U>)
        requires
            forall|batch: &Batch| call_requires(f, (batch,)),
        ensures
            *final(self) == *old(self),
            results@.len() == old(self).live().len(),
            forall|i: int|
                0 <= i < results@.len() ==> call_ensures(f, (&old(self).live()[i],), #[trigger] results@[i]),
    {
        let mut results: Vec<U> = Vec::new();
        let ghost layers = self.merging@;
        let ghost mut taken: Seq<Batch> = Seq::empty();
        let mut index: usize = self.merging.len();
        proof {
            assert(taken + merged_live(layers, index as int) =~= merged_live(layers, layers.len() as int));
        }
        while index > 0
            invariant
                index <= self.merging@.len(),
                self.merging@ == layers,
                forall|batch: &Batch| call_requires(f, (batch,)),
                taken + merged_live(layers, index as int) == merged_live(layers, layers.len() as int),
                results@.len() == taken.len(),
                forall|i: int| 0 <= i < results@.len() ==> call_ensures(f, (&taken[i],), #[trigger] results@[i]),
            decreases index,
        {
            index -= 1;
            let ghost before = taken;
            proof {
                taken = taken + layer_live(layers[index as int]);
                assert(taken + merged_live(layers, index as int) =~= before + merged_live(layers, index + 1));
            }
            match &self.merging[index] {
                MergeState::Double(MergeVariant::InProgress(batch1, batch2, _, _)) => {
                    results.push(f(batch1));
                    results.push(f(batch2));
                },
                MergeState::Double(MergeVariant::Complete(Some(batch))) => {
                    results.push(f(batch));
                },
                MergeState::Single(Some(batch)) => {
                    results.push(f(batch));
                },
                _ => {},
            }
        }
        proof {
            assert(taken + merged_live(layers, 0) =~= taken);
        }
        let ghost merged = taken;
        let mut position: usize = 0;
        while position < self.pending.len()
            invariant
                position <= self.pending@.len(),
                forall|batch: &Batch| call_requires(f, (batch,)),
                taken == merged + self.pending@.take(position as int),
                results@.len() == taken.len(),
                forall|i: int| 0 <= i < results@.len() ==> call_ensures(f, (&taken[i],), #[trigger] results@[i]),
            decreases self.pending@.len() - position,
        {
            let ghost before = taken;
            results.push(f(&self.pending[position]));
            proof {
                taken = taken.push(self.pending@[position as int]);
                assert(taken =~= merged + self.pending@.take(position + 1));
            }
            position += 1;
        }
        proof {
            assert(self.pending@.take(position as int) =~= self.pending@);
        }
        results
    }

    /// Sets the frontier to which merges advance times from now on. With
    /// the empty frontier the trace is closed: all batches are dropped.
    pub fn advance_by(&mut self, frontier: &[u64])
        requires
            old(self).wf(),
        ensures
            final(self).wf(),
            final(self).advanced_from(old(self), frontier@),
    {
        self.advance_frontier = frontier_to_vec(frontier);
        if self.advance_frontier.len() == 0 {
            self.pending.clear();
            self.merging.clear();
            proof {
                self.lemma_capacity();
                assert(self.pending@ =~= Seq::<Batch>::empty());
            }
        }
    }

    /// Sets the frontier up to which batches are kept apart for cursors,
    /// and introduces the waiting batches that the new frontier releases.
    /// The answer is how often the spine asks to be scheduled again: once
    /// for each introduction that left it not reduced.
    pub fn distinguish_since(&mut self, frontier: &[u64]) -> (asks: usize)
        requires
            old(self).wf(),
        ensures
            final(self).wf(),
            final(self).spec_distinguish_frontier() == frontier@,
            final(self).spec_advance_frontier() == old(self).spec_advance_frontier(),
            final(self).spec_upper() == old(self).spec_upper(),
            final(self).spec_effort() == old(self).spec_effort(),
            final(self).load() <= old(self).load(),
            final(self).waiting() == old(self).waiting().skip(released(old(self).waiting(), frontier@) as int),
            final(self).pending() == old(self).pending().skip(released(old(self).waiting(), frontier@) as int),
            released(old(self).waiting(), frontier@) == 0 ==> final(self).merged() == old(self).merged() && final(self).pending() == old(self).pending(),
            final(self).holds(old(self), None),
            final(self).released_from(
                old(self),
                old(self).pending().take(released(old(self).waiting(), frontier@) as int),
                asks as int,
            ),
    {
        self.through_frontier = frontier_to_vec(frontier);
        let ghost mid = *self;
        let asks = self.consider_merges();
        proof {
            self.lemma_released_start(
                &mid,
                old(self),
                mid.pending@.take(released(mid.waiting(), frontier@) as int),
                asks as int,
            );
            assert forall|q: u64| old(self).settled(q) implies #[trigger] self.settled(q) by {
                assert(mid.settled(q));
            }
            assert forall|d: u64, q: u64|
                #![trigger self.accumulation(d, q)]
                old(self).settled(q) implies congruent(self.accumulation(d, q), old(self).accumulation(d, q) + 0) by {
                assert(mid.settled(q));
                assert(congruent(self.accumulation(d, q), mid.accumulation(d, q) + 0));
            }
        }
        asks
    }

    /// Takes a batch, which must begin at the upper frontier of the spine.
    /// The batch waits until the distinguish frontier releases it. Every
    /// batch that is released is introduced at the layer that fits its
    /// size, the least `k` with at most `2^k` updates, the oldest first.
    /// The answer is how often the spine asks to be scheduled again: once
    /// for each introduction that left it not reduced.
    pub fn insert(&mut self, batch: Batch) -> (asks: usize)
        requires
            old(self).wf(),
            batch@.lower == old(self).spec_upper(),
            old(self).load() + cost(batch@.updates.len()) <= old(self).capacity(),
        ensures
            final(self).wf(),
            final(self).spec_upper() == batch@.upper,
            final(self).spec_distinguish_frontier() == old(self).spec_distinguish_frontier(),
            final(self).spec_advance_frontier() == old(self).spec_advance_frontier(),
            final(self).spec_effort() == old(self).spec_effort(),
            final(self).load() <= old(self).load() + cost(batch@.updates.len()),
            final(self).waiting() == old(self).waiting().push(batch@).skip(
                released(old(self).waiting().push(batch@), old(self).spec_distinguish_frontier()) as int,
            ),
            final(self).pending() == old(self).pending().push(batch).skip(
                released(old(self).waiting().push(batch@), old(self).spec_distinguish_frontier()) as int,
            ),
            released(old(self).waiting().push(batch@), old(self).spec_distinguish_frontier()) == 0 ==> final(self).merged() == old(self).merged() && final(self).pending() == old(self).pending().push(batch),
            final(self).holds(old(self), Some(batch)),
            final(self).live().len() > 0 && final(self).live().last() == batch,
            final(self).released_from(
                old(self),
                old(self).pending().push(batch).take(
                    released(old(self).waiting().push(batch@), old(self).spec_distinguish_frontier()) as int,
                ),
                asks as int,
            ),
    {
        let ghost before = self.pending@;
        let ghost taken = batch;
        self.upper = frontier_to_vec(batch.upper().as_slice());
        self.pending.push(batch);
        proof {
            assert(self.pending@.drop_last() =~= before);
            assert(views(self.pending@) =~= views(before).push(batch@));
            if before.len() > 0 {
                assert(self.pending@[0] == before[0]);
            }
            assert forall|i: int| 0 <= i < self.pending@.len() - 1 implies (#[trigger] self.pending@[i])@.upper
                == self.pending@[i + 1]@.lower by {
                if i < before.len() - 1 {
                    assert(self.pending@[i] == before[i]);
                    assert(self.pending@[i + 1] == before[i + 1]);
                    assert(before[i]@.upper == before[i + 1]@.lower);
                } else {
                    assert(self.pending@[i] == before[before.len() - 1]);
                }
            }
        }
        let ghost mid = *self;
        let asks = self.consider_merges();
        proof {
            self.lemma_released_start(
                &mid,
                old(self),
                mid.pending@.take(released(mid.waiting(), mid.through_frontier@) as int),
                asks as int,
            );
        }
        proof {
            assert forall|q: u64| old(self).settled(q) implies #[trigger] self.settled(q) by {
                assert(mid.settled(q));
            }
            assert forall|d: u64, q: u64|
                #![trigger self.accumulation(d, q)]
                old(self).settled(q) implies congruent(
                self.accumulation(d, q),
                old(self).accumulation(d, q) + accumulated(taken@.updates, d, q),
            ) by {
                assert(mid.settled(q));
                assert(mid.pending@.last() == taken);
                assert(congruent(self.accumulation(d, q), mid.accumulation(d, q) + 0));
            }
            // The batch is the newest of the spine.
            let all = old(self).pending().push(taken);
            let n = released(old(self).waiting().push(taken@), old(self).spec_distinguish_frontier()) as int;
            assert(mid.pending@ == all);
            assert(all.last() == taken);
            mid.lemma_waiting();
            assert(n <= all.len()) by {
                lemma_released_bound(mid.waiting(), mid.through_frontier@);
            }
            if n < all.len() {
                assert(self.pending@.last() == taken);
                assert(self.live().last() == taken);
            } else {
                assert(all.take(n) =~= all);
                assert(self.pending@ =~= Seq::<Batch>::empty());
                assert(self.live() =~= self.merged());
            }
        }
        asks
    }

    /// The spine is `other` after a batch without updates was inserted that
    /// begins and ends at the upper frontier of `other`, and asked `asks`
    /// times to be scheduled again.
    pub open spec fn closed_from(&self, other: &Spine, asks: int) -> bool {
        exists|batch: Batch|
            batch@ == closing(other.spec_upper()) && #[trigger] self.released_from(
                other,
                other.pending().push(batch).take(
                    released(other.waiting().push(batch@), other.spec_distinguish_frontier()) as int,
                ),
                asks,
            )
    }

    /// Completes the trace with a last batch without updates that begins
    /// and ends at the upper frontier, unless that frontier is empty. The
    /// answer is how often the spine asks to be scheduled again.
    pub fn close(&mut self) -> (asks: usize)
        requires
            old(self).wf(),
            old(self).spec_upper().len() > 0 ==> old(self).load() + cost(0) <= old(self).capacity(),
        ensures
            final(self).wf(),
            final(self).spec_upper() == old(self).spec_upper(),
            final(self).spec_distinguish_frontier() == old(self).spec_distinguish_frontier(),
            final(self).spec_advance_frontier() == old(self).spec_advance_frontier(),
            final(self).spec_effort() == old(self).spec_effort(),
            final(self).load() <= old(self).load() + cost(0),
            old(self).spec_upper().len() == 0 ==> *final(self) == *old(self) && asks == 0,
            old(self).spec_upper().len() > 0 ==> final(self).closed_from(old(self), asks as int),
            old(self).spec_upper().len() > 0 ==> final(self).waiting() == old(self).waiting().push(
                closing(old(self).spec_upper()),
            ).skip(
                released(
                    old(self).waiting().push(closing(old(self).spec_upper())),
                    old(self).spec_distinguish_frontier(),
                ) as int,
            ),
            final(self).holds(old(self), None),
    {
        if self.upper.len() > 0 {
            let builder = Builder::new();
            let bound = frontier_to_vec(self.upper.as_slice());
            let batch = builder.done(bound.as_slice(), bound.as_slice(), bound.as_slice());
            proof {
                assert(batch@.updates =~= Seq::<crate::update::Update>::empty());
                assert(batch@ == closing(self.upper@));
            }
            let ghost last = batch;
            let asks = self.insert(batch);
            proof {
                assert(last@ == closing(old(self).spec_upper()));
                assert(self.released_from(
                    old(self),
                    old(self).pending().push(last).take(
                        released(old(self).waiting().push(last@), old(self).spec_distinguish_frontier()) as int,
                    ),
                    asks as int,
                ));
            }
            asks
        } else {
            proof {
                lemma_pow2_positive(ceil_log2_spec(0));
            }
            0
        }
    }

    /// Applies some effort to the maintenance of the trace. Unless the
    /// spine is reduced, a placeholder is introduced at the layer
    /// `floor(log2(effort))`, which pays fuel to the merges in progress, and
    /// the spine asks once to be scheduled again. The answer is how often
    /// it asks.
    pub fn exert(&mut self, effort: &mut isize) -> (asks: usize)
        requires
            old(self).wf(),
            *old(effort) >= 0,
            !old(self).spec_reduced() ==> old(self).load() + 2 * pow2(floor_log2_spec(*old(effort) as nat)) <= old(
                self,
            ).capacity(),
        ensures
            final(self).wf(),
            asks == old(self).asking(),
            *final(effort) == *old(effort),
            final(self).unchanged_but_layers(old(self)),
            final(self).load() <= old(self).load() + 2 * pow2(floor_log2_spec(*old(effort) as nat)),
            old(self).spec_reduced() ==> final(self).holds_what(old(self)),
            !old(self).spec_reduced() ==> final(self).introduced(
                old(self),
                None,
                floor_log2_spec(*old(effort) as nat),
            ),
            final(self).holds(old(self), None),
    {
        // If all merges are complete and several batches remain, drive
        // the merging forward with a placeholder.
        if !self.reduced() {
            let level = floor_log2(*effort as usize);
            proof {
                self.lemma_accepts_placeholder(level as nat);
            }
            self.introduce_batch(None, level);
            // The spine was not reduced: it asks to be looked at again.
            1
        } else {
            proof {
                lemma_pow2_positive(floor_log2_spec(*old(effort) as nat));
            }
            0
        }
    }

    /// Introduces a batch that was released at layer `index`.
    fn introduce_next(&mut self, batch: Batch, index: usize)
        requires
            old(self).accepts(Some(batch), index as nat),
        ensures
            final(self).wf(),
            final(self).unchanged_but_layers(old(self)),
            final(self).load() <= old(self).load() + 2 * pow2(index as nat),
            final(self).holds(old(self), Some(batch)),
            final(self).introduced_so(old(self), Some(batch), index as nat),
    {
        self.introduce_batch(Some(batch), index);
        proof {
            reveal(Spine::introduced_so);
        }
    }

    /// Introduces the batches that wait, oldest first, for as long as the
    /// upper frontier of the first dominates the distinguish frontier.
    #[verifier::rlimit(100)]
    fn consider_merges(&mut self) -> (asks: usize)
        requires
            old(self).wf(),
        ensures
            final(self).wf(),
            final(self).unchanged_but_layers_and_waiting(old(self)),
            final(self).load() <= old(self).load(),
            final(self).waiting() == old(self).waiting().skip(
                released(old(self).waiting(), old(self).spec_distinguish_frontier()) as int,
            ),
            final(self).pending() == old(self).pending().skip(
                released(old(self).waiting(), old(self).spec_distinguish_frontier()) as int,
            ),
            released(old(self).waiting(), old(self).spec_distinguish_frontier()) == 0 ==> final(self).merged()
                == old(self).merged() && final(self).pending() == old(self).pending(),
            final(self).holds(old(self), None),
            final(self).released_from(
                old(self),
                old(self).pending().take(released(old(self).waiting(), old(self).spec_distinguish_frontier()) as int),
                asks as int,
            ),
    {
        let mut asks: usize = 0;
        let ghost all = views(self.pending@);
        let ghost waiting = self.pending@;
        proof {
            assert(waiting.take(0) =~= Seq::<Batch>::empty());
            assert(self.released_so_far(old(self), waiting.take(0), 0)) by {
                reveal(Spine::released_so_far);
            }
        }
        let ghost through = self.through_frontier@;
        let ghost mut count: nat = 0;
        proof {
            assert(all.skip(0) =~= all);
        }
        while self.pending.len() > 0 && frontier_dominates(
            self.pending[0].upper().as_slice(),
            self.through_frontier.as_slice(),
        )
            invariant
                self.wf(),
                self.unchanged_but_layers_and_waiting(old(self)),
                self.load() <= old(self).load(),
                through == self.through_frontier@,
                count <= all.len(),
                views(self.pending@) == all.skip(count as int),
                released(all, through) == count + released(all.skip(count as int), through),
                count == 0 ==> self.merging@ == old(self).merging@ && self.pending@ == old(self).pending@,
                self.holds(old(self), None),
                waiting == old(self).pending@,
                all == views(waiting),
                self.pending@ == waiting.skip(count as int),
                asks <= count,
                self.released_so_far(old(self), waiting.take(count as int), asks as int),
            decreases self.pending@.len(),
        {
            let ghost start = *self;
            let ghost before = self.pending@;
            let ghost rest = views(before);
            assert(before == waiting.skip(count as int));
            proof {
                lemma_pending_cost_first(before);
                lemma_pending_cost_nonnegative(before.skip(1));
                assert(rest[0] == before[0]@);
                assert(views(before.skip(1)) =~= rest.skip(1));
                assert(all.skip(count as int).skip(1) =~= all.skip((count + 1) as int));
                if before.len() > 1 {
                    assert(before.skip(1)[0] == before[1]);
                }
                assert forall|i: int| 0 <= i < before.skip(1).len() - 1 implies (#[trigger] before.skip(1)[i])@.upper
                    == before.skip(1)[i + 1]@.lower by {
                    assert(before.skip(1)[i] == before[i + 1]);
                    assert(before[i + 1]@.upper == before[i + 2]@.lower);
                }
            }
            let batch = self.pending.remove(0);
            proof {
                assert(self.pending@ =~= before.skip(1));
                crate::levels::lemma_ceil_log2(batch@.updates.len());
            }
            let ghost mid = *self;
            let ghost taken = batch;
            let index = ceil_log2(batch.len());
            self.introduce_next(batch, index);
            proof {
                assert(all.len() == waiting.len());
                assert(before == waiting.skip(count as int));
                assert(before.len() > 0);
                assert(waiting.skip(count as int).len() == waiting.len() - count);
                assert(count < waiting.len());
                assert(before[0] == waiting[count as int]);
                let next = waiting.take((count + 1) as int);
                assert(next.drop_last() =~= waiting.take(count as int));
                assert(next.last() == taken);
                self.lemma_released_more(&mid, &start, old(self), next, asks as int);
                assert(self.pending@ =~= waiting.skip((count + 1) as int));
            }
            proof {
                assert forall|q: u64| old(self).settled(q) implies #[trigger] self.settled(q) by {
                    assert(start.settled(q));
                    assert(mid.settled(q));
                }
                assert forall|d: u64, q: u64|
                    #![trigger self.accumulation(d, q)]
                    old(self).settled(q) implies congruent(self.accumulation(d, q), old(self).accumulation(d, q) + 0) by {
                    assert(start.settled(q));
                    assert(mid.settled(q));
                    lemma_accumulated_all_first(before, d, q);
                    assert(congruent(start.accumulation(d, q), old(self).accumulation(d, q) + 0));
                    assert(congruent(
                        self.accumulation(d, q),
                        mid.accumulation(d, q) + accumulated(taken@.updates, d, q),
                    ));
                }
            }
            // Having done the work, ask to be scheduled again unless the
            // spine is reduced.
            proof {
                assert(count < waiting.len());
                assert(waiting.len() == old(self).pending.len());
            }
            if !self.reduced() {
                asks = asks + 1;
            }
            proof {
                count = count + 1;
            }
        }
        proof {
            assert(self.released_from(old(self), waiting.take(count as int), asks as int)) by {
                reveal(Spine::released_so_far);
            }
        }
        asks
    }

    /// What the layer of an introduced batch holds, and that the merges
    /// around it are new.
    #[verifier::rlimit(30)]
    proof fn lemma_introduced_low(
        &self,
        other: &Spine,
        paid: Seq<MergeState>,
        rolled: Seq<MergeState>,
        put: Seq<MergeState>,
        batch: Option<Batch>,
        k: int,
        fuel: int,
        frontier: Option<Vec<u64>>,
    )
        requires
            0 <= k,
            fuel >= 8 * pow2(k as nat),
            fuel_applied(other.merging@, paid, fuel, other.merging@.len() as int),
            fitting(paid),
            fueled(paid, 0, paid.len() as int, fuel),
            paid.len() >= other.merging@.len(),
            rolled.len() >= paid.len(),
            forall|j: int| k + 1 < j < rolled.len() ==> #[trigger] rolled[j] == layer_at(paid, j),
            vacant_below(rolled, k),
            k < put.len(),
            put.len() >= rolled.len(),
            forall|j: int| 0 <= j < put.len() && j != k ==> #[trigger] put[j] == layer_at(rolled, j),
            !layer_at(rolled, k).double(),
            tidied(put, self.merging@),
            low_untouched(other.merging@, paid),
            vacant_under(paid, k) ==> forall|j: int| 0 <= j < rolled.len() ==> #[trigger] rolled[j] == layer_at(paid, j),
            frontier is Some && frontier->0@ == other.advance_frontier@,
            placed(put[k], layer_at(rolled, k), batch, frontier),
            single_upto(other.merging@, other.merging@.len() - 1) ==> paid.len() == other.merging@.len(),
            vacant_below(paid, k) && k < paid.len() ==> rolled.len() == paid.len(),
            put.len() == if rolled.len() > k {
                rolled.len() as int
            } else {
                k + 1
            },
            k + 1 < rolled.len() ==> fresh(rolled[k + 1], other.advance_frontier@),
            below(paid, paid.len() as int) == below(other.merging@, other.merging@.len() as int),
            k < rolled.len(),
            !vacant_under(paid, k) && layer_at(paid, k).vacant() ==> rolled[k].single(),
            !vacant_under(paid, k) && layer_at(paid, k).single() ==> rolled[k].vacant() && k + 1 < rolled.len()
                && !rolled[k + 1].vacant(),
        ensures
            self.merges_new(k, k + 1, other.spec_advance_frontier()),
            self.put_onto(other, batch, k),
            self.put_alone(other, batch, k),
            self.rolled_under(other, batch, k),
    {
        reveal(low_untouched);
        reveal(fuel_applied);
        let first = other.merging@;
        let done = self.merging@;
        let top = put.len() - 1;
        let to = done.len() - 1;
        let since = other.advance_frontier@;
        lemma_pow2_positive(k as nat);
        assert forall|i: int| 0 <= i < k implies (#[trigger] put[i]).vacant() by {
            assert(put[i] == layer_at(rolled, i));
            assert(rolled[i].vacant());
        }
        lemma_introduced(first, paid, rolled, put, done, k, fuel);
        lemma_placed_fresh(put[k], layer_at(rolled, k), batch, frontier);
        // The merges at or below the layer above the batch.
        assert forall|m: int|
            #![trigger self.merge_complete(m)]
            0 <= m <= k + 1 && m < self.spec_layers() && self.layer_kind(m) == 2 && !self.merge_complete(m) implies m
            >= k && self.work_left(m) == self.layer_len(m) && self.merge_frontier(m) == since by {
            assert(done[m].double() && !done[m].complete_merge());
            if m == to && to < top {
                assert(put[top].single());
            } else {
                assert(done[m] == put[m]);
                if m < k {
                    assert(put[m].vacant());
                } else if m == k + 1 {
                    assert(put[m] == layer_at(rolled, m));
                }
            }
        }
        lemma_first_occupied(first, 0);
        let low = first_occupied(first, 0);
        if other.lowest() < k && other.lowest() < other.spec_layers() && other.single_to(k) {
            let last = if k < first.len() {
                k
            } else {
                first.len() - 1
            };
            assert forall|i: int| 0 <= i <= last implies !(#[trigger] first[i]).double() by {
                assert(other.layer_kind(i) != 2);
            }
            lemma_single_all(first, last);
            assert forall|i: int| 0 <= i <= last implies #[trigger] paid[i] == first[i] by {
                lemma_single_upto(first, last, i);
            }
            assert(paid[low] == first[low]);
            assert(!vacant_under(paid, k));
            if k < first.len() {
                assert(paid[k] == first[k]);
            } else {
                assert(paid.len() == first.len());
            }
            if k < first.len() && other.layer_kind(k) == 1 {
                assert(layer_at(paid, k).single());
                assert(put[k] == MergeState::Single(batch));
                assert(put[k + 1] == layer_at(rolled, k + 1));
                if k >= to {
                    assert(put[k].vacant());
                }
                assert(done[k] == put[k]);
                assert(layer_live(done[k]) =~= one_batch(batch));
            } else {
                assert(layer_at(paid, k).vacant());
                assert(rolled[k].single());
                assert(put[k].double());
            }
        }
        if other.lowest_at(k) && other.layer_kind(k) == 1 {
            assert(vacant_below(first, k));
            lemma_single_above_vacant(first, k);
            assert forall|i: int| 0 <= i < k implies (#[trigger] paid[i]).vacant() by {
                lemma_single_upto(first, k, i);
                assert(paid[i] == first[i]);
                assert(first[i].vacant());
            }
            assert(paid[k] == first[k]);
            assert(rolled[k] == layer_at(paid, k));
            assert(done[k] == put[k]);
            assert(layer_live(done[k]) =~= layer_live(first[k]) + one_batch(batch));
            if first.len() == k + 1 {
                assert(put.len() == k + 1);
                assert(!put[k].single());
            }
        }
        if other.lowest() > k || other.lowest() >= other.spec_layers() || (other.lowest_at(k) && other.layer_kind(k)
            == 2) {
            // Nothing stands at or below the layer once the fuel is paid.
            assert forall|i: int| 0 <= i <= k && i < first.len() && i < low implies (#[trigger] first[i]).vacant()
                && paid[i] == first[i] by {
                assert(first[i].vacant());
                assert(vacant_below(first, i));
                lemma_single_above_vacant(first, i);
            }
            if low >= first.len() {
                if first.len() > 0 {
                    assert(vacant_below(first, first.len() - 1));
                    assert(first[first.len() - 1].vacant());
                    lemma_single_above_vacant(first, first.len() - 1);
                }
                assert(paid.len() == first.len());
            } else if low == k {
                assert(first[k].double());
                assert(first[k].complete_merge() || first[k].remaining() < fuel);
                assert(after_fuel(first[k], paid[k], fuel));
                assert(paid[k].vacant());
            }
            assert forall|i: int| 0 <= i <= k && i < paid.len() implies (#[trigger] paid[i]).vacant() by {
                if i < low {
                    assert(i < first.len());
                    assert(first[i].vacant() && paid[i] == first[i]);
                } else {
                    assert(i == k && low == k);
                }
            }
            assert(vacant_under(paid, k));
            assert(layer_at(rolled, k) == layer_at(paid, k));
            assert(put[k] == MergeState::Single(batch));
            assert(layer_live(done[self.lowest()]) =~= one_batch(batch));
            if other.lowest_at(k) {
                // What the two batches came to stands above the layer.
                lemma_below_nonnegative(first, k);
                lemma_below_monotone(first, k + 1, first.len() as int);
                assert(below(first, k + 1) == below(first, k) + first[k].accounted(k as nat));
                if self.lowest() != k {
                    if k < top {
                        assert(put[k].vacant());
                    } else {
                        assert forall|i: int| 0 <= i < paid.len() implies (#[trigger] paid[i]).vacant() by {}
                        lemma_below_vacant(paid, paid.len() as int);
                    }
                }
            }
        }
    }

    /// What the steps of an introduction come to.
    #[verifier::rlimit(30)]
    proof fn lemma_introduced_batch(
        &self,
        other: &Spine,
        paid: Seq<MergeState>,
        rolled: Seq<MergeState>,
        put: Seq<MergeState>,
        batch: Option<Batch>,
        k: int,
        fuel: int,
        frontier: Option<Vec<u64>>,
    )
        requires
            0 <= k,
            fuel == fuel_for(k as nat, other.spec_effort()),
            other.effort >= 1,
            fuel_applied(other.merging@, paid, fuel, other.merging@.len() as int),
            moved_up(other.merging@, paid, fuel, other.merging@.len() as int),
            fitting(paid),
            fueled(paid, 0, paid.len() as int, fuel),
            rolled.len() >= paid.len(),
            forall|j: int| k + 1 < j < rolled.len() ==> #[trigger] rolled[j] == layer_at(paid, j),
            vacant_below(rolled, k),
            k < put.len(),
            put.len() >= rolled.len(),
            forall|j: int| 0 <= j < put.len() && j != k ==> #[trigger] put[j] == layer_at(rolled, j),
            exists|frontier: Option<Vec<u64>>| placed(put[k], layer_at(rolled, k), batch, frontier),
            !layer_at(rolled, k).double(),
            tidied(put, self.merging@),
            self.follows(other, batch),
            low_untouched(other.merging@, paid),
            vacant_under(paid, k) ==> forall|j: int| 0 <= j < rolled.len() ==> #[trigger] rolled[j] == layer_at(paid, j),
            frontier is Some && frontier->0@ == other.advance_frontier@,
            placed(put[k], layer_at(rolled, k), batch, frontier),
            folded_one(paid, rolled, k, other.advance_frontier@),
            single_upto(other.merging@, other.merging@.len() - 1) ==> paid.len() == other.merging@.len(),
            vacant_below(paid, k) && k < paid.len() ==> rolled.len() == paid.len(),
            put.len() == if rolled.len() > k {
                rolled.len() as int
            } else {
                k + 1
            },
            self.merges_new(k, k + 1, other.spec_advance_frontier()),
            self.put_onto(other, batch, k),
            self.put_alone(other, batch, k),
            self.rolled_under(other, batch, k),
        ensures
            self.introduced(other, batch, k as nat),
    {
        let p = pow2(k as nat) as int;
        lemma_pow2_positive(k as nat);
        assert(fuel >= 8 * p) by (nonlinear_arith)
            requires
                fuel == 8 * p * other.effort,
                other.effort >= 1,
                p >= 0,
        ;
        assert forall|i: int| 0 <= i < k implies (#[trigger] put[i]).vacant() by {
            assert(put[i] == layer_at(rolled, i));
            assert(rolled[i].vacant());
        }
        lemma_introduced(other.merging@, paid, rolled, put, self.merging@, k, fuel);
        let j = self.lowest();
        if batch is Some {
            lemma_merged_last(self.merging@, j, self.merging@.len() as int);
        }
        assert forall|m: int|
            #![trigger other.work_left(m)]
            0 <= m < other.spec_layers() && other.layer_kind(m) == 2 implies if other.merge_complete(m)
            || other.work_left(m) < fuel {
            m <= k + 1 || m >= self.spec_layers() || self.layer_kind(m) != 2
        } else {
            m > k + 1 && self.merge_continued(other, m, fuel)
        } by {
            assert(other.merging@[m].double());
        }
        assert forall|m: int|
            #![trigger other.layer_batches(m)]
            m > k + 1 && other.merge_finishes(m, fuel) implies self.has_merge_of(
            other.layer_batches(m),
            other.merge_frontier(m),
        ) by {
            reveal(moved_up);
            let done = self.merging@;
            let top = put.len() - 1;
            let to = done.len() - 1;
            assert(other.merging@[m].double());
            assert(layer_at(other.merging@, m + 1).vacant());
            assert(raised(other.merging@[m], paid[m + 1]));
            assert(rolled[m + 1] == layer_at(paid, m + 1));
            assert(put[m + 1] == layer_at(rolled, m + 1));
            let j = if m + 1 < to {
                m + 1
            } else {
                to
            };
            if m + 1 < to {
                assert(done[m + 1] == put[m + 1]);
            } else if m + 1 < top {
                assert(put[m + 1].vacant());
            }
            assert(done[j] == paid[m + 1]);
            lemma_live_in_merged(done, done.len() as int, j, 0);
            let i = choose|i: int|
                0 <= i < merged_live(done, done.len() as int).len() && #[trigger] merged_live(
                    done,
                    done.len() as int,
                )[i] == layer_live(done[j])[0];
            assert(self.merged()[i] == layer_live(done[j])[0]);
        }
        if batch is Some && other.begins_merge(k) {
            reveal(low_untouched);
            let first = other.merging@;
            let done = self.merging@;
            lemma_first_occupied(first, 0);
            assert(vacant_below(first, k));
            lemma_single_above_vacant(first, k);
            assert forall|i: int| 0 <= i < k implies (#[trigger] paid[i]).vacant() by {
                lemma_single_upto(first, k, i);
                assert(paid[i] == first[i]);
                assert(first[i].vacant());
            }
            assert(paid[k] == first[k]);
            assert(rolled[k] == layer_at(paid, k));
            assert(done[k] == put[k]);
            assert(layer_live(done[k]) =~= seq![layer_live(first[k])[0], batch->0]);
            if first.len() == k + 1 {
                assert(put.len() == k + 1);
                assert(!put[k].single());
            }
        }
        if other.rolls_one(k) {
            reveal(low_untouched);
            reveal(folds_one);
            reveal(folded_one);
            let first = other.merging@;
            let done = self.merging@;
            let j = first_occupied(first, 0);
            lemma_first_occupied(first, 0);
            assert forall|i: int| 0 <= i <= k implies !(#[trigger] first[i]).double() by {
                if i < j {
                    assert(first[i].vacant());
                } else if j < i < k {
                    assert(other.layer_kind(i) == 0);
                }
            }
            lemma_single_all(first, k);
            assert forall|i: int| 0 <= i <= k implies #[trigger] paid[i] == first[i] by {
                lemma_single_upto(first, k, i);
            }
            assert forall|i: int| 0 <= i < j implies (#[trigger] paid[i]).vacant() by {
                assert(paid[i] == first[i]);
                assert(first[i].vacant());
            }
            assert(paid[j] == first[j]);
            lemma_first_occupied_at(paid, 0, j);
            assert forall|i: int| j + 1 <= i < k implies (#[trigger] paid[i]).vacant() by {
                assert(paid[i] == first[i]);
                assert(other.layer_kind(i) == 0);
            }
            assert(paid[k] == first[k]);
            lemma_first_occupied_at(paid, j + 1, k);
            assert(folds_one(paid, k));
            let live = layer_live(rolled[k + 1]);
            let r = live.last();
            assert(put[k + 1] == layer_at(rolled, k + 1));
            let top = put.len() - 1;
            let to = done.len() - 1;
            if k + 1 < to {
                assert(done[k + 1] == put[k + 1]);
            } else {
                if k + 1 < top {
                    assert(put[k + 1].vacant());
                }
                if to < top {
                    assert(put[k].vacant());
                }
            }
            assert(done[k + 1] == rolled[k + 1]);
            lemma_live_in_merged(done, done.len() as int, k + 1, live.len() - 1);
            let i = choose|i: int|
                0 <= i < merged_live(done, done.len() as int).len() && #[trigger] merged_live(
                    done,
                    done.len() as int,
                )[i] == layer_live(done[k + 1])[live.len() - 1];
            assert(self.merged()[i] == r);
            assert(merge_of(
                self.merged()[i],
                seq![other.layer_batches(k)[0], other.layer_batches(other.lowest())[0]],
                other.spec_advance_frontier(),
            ));
        }
    }

    /// Introduces a batch, or a placeholder for one, at layer `batch_index`.
    ///
    /// Every merge in progress is paid `8 * 2^batch_index * effort` units of
    /// fuel. Then what the layers below `batch_index` hold is rolled up into
    /// that layer, the batch is put into it, and the highest layer is
    /// tidied.
    #[verifier::rlimit(100)]
    pub fn introduce_batch(&mut self, batch: Option<Batch>, batch_index: usize)
        requires
            old(self).accepts(batch, batch_index as nat),
        ensures
            final(self).wf(),
            final(self).unchanged_but_layers(old(self)),
            final(self).load() <= old(self).load() + 2 * pow2(batch_index as nat),
            final(self).spec_layers() >= 1,
            final(self).holds(old(self), batch),
            final(self).introduced(old(self), batch, batch_index as nat),
    {
        let ghost origin = self.merging@;
        let ghost advance = self.advance_frontier@;
        let ghost end = merging_end(self.pending@, self.upper@);
        let ghost link = link_of(batch, end);
        let ghost waiting = pending_cost(self.pending@);
        let ghost cap = self.capacity() - waiting;
        let ghost p = pow2(batch_index as nat) as int;
        proof {
            lemma_pending_cost_nonnegative(self.pending@);
            old(self).lemma_capacity();
            lemma_pow2_positive(batch_index as nat);
            lemma_pow2_above(batch_index as nat);
            lemma_below_nonnegative(self.merging@, self.merging@.len() as int);
            assert(8 * self.effort * p <= isize::MAX) by (nonlinear_arith)
                requires
                    p <= self.capacity(),
                    0 <= p,
                    self.effort >= 1,
                    8 * self.effort * self.capacity() <= isize::MAX,
            ;
            assert(8 * p <= 8 * p * self.effort) by (nonlinear_arith)
                requires
                    0 <= p,
                    self.effort >= 1,
            ;
            assert(8 * p * self.effort == 8 * self.effort * p) by (nonlinear_arith);
        }
        // The amount of fuel is proportional to the size of the layer and
        // scaled by the effort.
        let mut fuel: usize = 8 * pow2_exec(batch_index);
        fuel = fuel * self.effort;
        let mut fuel = fuel as isize;

        // Apply the fuel to each merge in progress.
        proof {
            lemma_balanced_refl(origin, advance);
            lemma_sourced_refl(origin, advance, batch);
        }
        self.fuel_layers(&mut fuel, Ghost(link), Ghost(cap), Ghost(origin), Ghost(batch));
        let ghost paid = self.merging@;

        // Vacate the layers below the batch.
        self.roll_up(batch_index, Ghost(link), Ghost(fuel as int), Ghost(cap), Ghost(origin), Ghost(batch));

        // Put the batch into its layer, which holds at most one batch.
        let ghost rolled = self.merging@;
        proof {
            let k = batch_index as int;
            assert({
                &&& vacant_under(paid, k) ==> forall|j: int| 0 <= j < rolled.len() ==> #[trigger] rolled[j] == layer_at(paid, j)
                &&& vacant_under(paid, k) && k < paid.len() ==> rolled.len() == paid.len()
                &&& folded_one(paid, rolled, k, advance)
                &&& k + 1 < rolled.len() ==> fresh(rolled[k + 1], advance)
                &&& !vacant_under(paid, k) && layer_at(paid, k).vacant() ==> rolled[k].single()
                &&& !vacant_under(paid, k) && layer_at(paid, k).single() ==> rolled[k].vacant() && k + 1
                    < rolled.len() && !rolled[k + 1].vacant()
            }) by {
                reveal(crate::trace::implementations::spine_content::rolled);
            }
        }
        proof {
            lemma_start_vacant(rolled, 0, batch_index as int, link);
            if rolled[batch_index as int].span() is Some {
                assert(span_upper(rolled[batch_index as int].span()) == start(rolled, 0, batch_index as int, link));
            }
        }
        self.insert_at(batch, batch_index);
        let ghost put = self.merging@;
        proof {
            lemma_balanced_put(
                origin,
                rolled,
                put,
                advance,
                None,
                None,
                batch,
                Some(self.advance_frontier),
                false,
                batch_index as int,
            );
            lemma_sourced_put(
                origin,
                rolled,
                put,
                advance,
                None,
                batch,
                batch,
                Some(self.advance_frontier),
                false,
                batch_index as int,
            );
            lemma_placed_numeric(rolled, put, batch_index as int, batch, Some(self.advance_frontier), 0);
            lemma_chained_from(rolled, batch_index as int, link);
            assert forall|j: int| 0 <= j < batch_index implies (#[trigger] put[j]).span() is None by {
                assert(put[j] == layer_at(rolled, j));
                assert(rolled[j].vacant());
            }
            lemma_chain_placed(rolled, put, batch_index as int, batch, Some(self.advance_frontier), link, end);
            assert(rolled[batch_index as int].fits(batch_index as nat));
            assert forall|m: int| 0 <= m < put.len() && (#[trigger] put[m]).double() implies put[m].remaining() + 4
                * below(put, m) + 0 < 4 * pow2(m as nat) by {
                if m == batch_index {
                    lemma_remaining_nonnegative(put[m], m as nat);
                } else if m < batch_index {
                    assert(put[m].vacant());
                }
            }
        }

        // Tidy the largest layers.
        self.tidy_layers(Ghost(end), Ghost(cap), Ghost(origin), Ghost(batch));
        proof {
            self.lemma_holds(old(self), batch);
            self.lemma_follows(old(self), batch);
            self.lemma_introduced_low(
                old(self),
                paid,
                rolled,
                put,
                batch,
                batch_index as int,
                fuel as int,
                Some(old(self).advance_frontier),
            );
            self.lemma_introduced_batch(
                old(self),
                paid,
                rolled,
                put,
                batch,
                batch_index as int,
                fuel as int,
                Some(old(self).advance_frontier),
            );
        }
    }

    /// Applies `fuel` to each merge in progress, the lowest layer first.
    /// Each merge gets the whole amount. What a complete merge came to moves
    /// into the layer above, where a merge may begin that is paid in turn.
    pub fn apply_fuel(&mut self, fuel: &mut isize)
        requires
            old(self).wf(),
        ensures
            final(self).wf(),
            final(self).paid(*old(fuel) as int),
            *final(fuel) == *old(fuel),
            final(self).load() == old(self).load(),
            final(self).unchanged_but_layers(old(self)),
            final(self).holds(old(self), None),
            final(self).fueled_by(old(self), *old(fuel) as int),
            final(self).follows(old(self), None),
    {
        proof {
            lemma_pending_cost_nonnegative(self.pending@);
            old(self).lemma_capacity();
        }
        proof {
            lemma_balanced_refl(self.merging@, self.advance_frontier@);
            lemma_sourced_refl(self.merging@, self.advance_frontier@, None);
        }
        self.fuel_layers(
            fuel,
            Ghost(merging_end(self.pending@, self.upper@)),
            Ghost(self.capacity() - pending_cost(self.pending@)),
            Ghost(self.merging@),
            Ghost(None),
        );
        proof {
            self.lemma_holds(old(self), None);
            self.lemma_follows(old(self), None);
            self.lemma_fueled_by(old(self), *fuel as int);
        }
    }

    /// What applying fuel to the layers comes to.
    proof fn lemma_fueled_by(&self, other: &Spine, fuel: int)
        requires
            fuel_applied(other.merging@, self.merging@, fuel, other.merging@.len() as int),
            none_complete(self.merging@, self.merging@.len() as int),
            moved_up(other.merging@, self.merging@, fuel, other.merging@.len() as int),
            self.merging@.len() >= other.merging@.len(),
        ensures
            self.fueled_by(other, fuel),
    {
        reveal(fuel_applied);
        reveal(none_complete);
        reveal(moved_up);
        assert forall|m: int| #![trigger other.layer_batches(m)] other.merge_finishes(m, fuel) implies m + 1
            < self.spec_layers() && self.layer_kind(m + 1) == 1 && self.layer_batches(m + 1).len() == 1 && merge_of(
            self.layer_batches(m + 1)[0],
            other.layer_batches(m),
            other.merge_frontier(m),
        ) by {
            assert(other.merging@[m].double());
            assert(layer_at(other.merging@, m + 1).vacant());
            assert(raised(other.merging@[m], self.merging@[m + 1]));
        }
        assert forall|m: int| 0 <= m < self.spec_layers() implies !#[trigger] self.merge_complete(m) by {
            assert(!self.merging@[m].complete_merge());
        }
        assert forall|m: int|
            #![trigger other.work_left(m)]
            0 <= m < other.spec_layers() && other.layer_kind(m) == 2 implies if other.merge_complete(m) || (fuel
            > 0 && other.work_left(m) < fuel) {
            self.layer_kind(m) == 0
        } else {
            self.merge_continued(other, m, if fuel > 0 {
                fuel
            } else {
                0
            })
        } by {
            assert(other.merging@[m].double());
            assert(after_fuel(other.merging@[m], self.merging@[m], fuel));
        }
    }

    /// Moves what the complete merge of layer `index` came to into the
    /// layer above.
    fn promote(
        &mut self,
        index: usize,
        Ghost(end): Ghost<Seq<u64>>,
        Ghost(cap): Ghost<int>,
        Ghost(origin): Ghost<Seq<MergeState>>,
        Ghost(added): Ghost<Option<Batch>>,
        Ghost(fuel): Ghost<int>,
    )
        requires
            index < old(self).merging@.len(),
            old(self).merging@[index as int].complete_merge(),
            fitting(old(self).merging@),
            chained(old(self).merging@, 0, old(self).merging@.len() as int, end),
            fueled(old(self).merging@, 0, index as int, credit_of(fuel)),
            fueled(old(self).merging@, index as int, old(self).merging@.len() as int, 0),
            below(old(self).merging@, old(self).merging@.len() as int) <= cap,
            8 * cap <= isize::MAX,
            balanced(origin, old(self).merging@, old(self).advance_frontier@, None, None),
            sourced(origin, old(self).merging@, old(self).advance_frontier@, None, added),
        ensures
            final(self).same_but_layers(old(self)),
            fuel_state(final(self).merging@, index + 1, fuel, end, cap),
            below(final(self).merging@, final(self).merging@.len() as int) == below(
                old(self).merging@,
                old(self).merging@.len() as int,
            ),
            balanced(origin, final(self).merging@, final(self).advance_frontier@, None, None),
            sourced(origin, final(self).merging@, final(self).advance_frontier@, None, added),
            final(self).merging@.len() == if old(self).merging@.len() > index + 1 {
                old(self).merging@.len() as int
            } else {
                index + 2
            },
            final(self).merging@[index as int].vacant(),
            !layer_at(old(self).merging@, index + 1).double(),
            !final(self).merging@[index + 1].vacant(),
            placed(
                final(self).merging@[index + 1],
                layer_at(old(self).merging@, index + 1),
                old(self).merging@[index as int]->Double_0.outcome(),
                Some(old(self).advance_frontier),
            ),
            old(self).merging@.len() <= index + 1 ==> !final(self).merging@[index + 1].double(),
            forall|j: int|
                0 <= j < old(self).merging@.len() && j != index && j != index + 1 ==> #[trigger] final(self).merging@[j] == old(self).merging@[j],
    {
        let ghost worked = self.merging@;
        let ghost advance = self.advance_frontier@;
        proof {
            lemma_promote_ready(worked, index as int, fuel, end, cap);
        }
        let complete = self.merging[index].complete();
        let ghost vacated = self.merging@;
        proof {
            assert(layer_at(vacated, index + 1) == layer_at(worked, index + 1));
            lemma_balanced_taken(origin, worked, vacated, advance, None, complete, None, index as int);
            lemma_sourced_taken(origin, worked, vacated, advance, None, complete, added, index as int, complete);
        }
        self.insert_at(complete, index + 1);
        proof {
            lemma_sourced_put(
                origin,
                vacated,
                self.merging@,
                advance,
                complete,
                added,
                complete,
                Some(self.advance_frontier),
                true,
                index + 1,
            );
            lemma_balanced_put(
                origin,
                vacated,
                self.merging@,
                advance,
                complete,
                None,
                complete,
                Some(self.advance_frontier),
                true,
                index + 1,
            );
            assert forall|j: int|
                0 <= j < self.merging@.len() && j != index && j != index + 1 implies #[trigger] self.merging@[j]
                == layer_at(worked, j) by {
                assert(self.merging@[j] == layer_at(vacated, j));
            }
            assert(self.merging@[index as int] == layer_at(vacated, index as int));
            lemma_promoted(
                worked,
                self.merging@,
                index as int,
                complete,
                Some(self.advance_frontier),
                fuel,
                end,
                cap,
            );
        }
    }

    /// Applies `fuel` to the layers, which end at `end`.
    #[verifier::rlimit(100)]
    fn fuel_layers(
        &mut self,
        fuel: &mut isize,
        Ghost(end): Ghost<Seq<u64>>,
        Ghost(cap): Ghost<int>,
        Ghost(origin): Ghost<Seq<MergeState>>,
        Ghost(added): Ghost<Option<Batch>>,
    )
        requires
            fuel_state(old(self).merging@, 0, *old(fuel) as int, end, cap),
            balanced(origin, old(self).merging@, old(self).advance_frontier@, None, None),
            sourced(origin, old(self).merging@, old(self).advance_frontier@, None, added),
        ensures
            balanced(origin, final(self).merging@, final(self).advance_frontier@, None, None),
            sourced(origin, final(self).merging@, final(self).advance_frontier@, None, added),
            fuel_applied(
                old(self).merging@,
                final(self).merging@,
                *old(fuel) as int,
                old(self).merging@.len() as int,
            ),
            none_complete(final(self).merging@, final(self).merging@.len() as int),
            moved_up(
                old(self).merging@,
                final(self).merging@,
                *old(fuel) as int,
                old(self).merging@.len() as int,
            ),
            low_untouched(old(self).merging@, final(self).merging@),
            single_upto(old(self).merging@, old(self).merging@.len() - 1)
                ==> final(self).merging@.len() == old(self).merging@.len(),
            final(self).merging@.len() >= old(self).merging@.len(),
            fuel_state(final(self).merging@, final(self).merging@.len() as int, *old(fuel) as int, end, cap),
            fueled(final(self).merging@, 0, final(self).merging@.len() as int, credit_of(*old(fuel) as int)),
            fueled(final(self).merging@, 0, final(self).merging@.len() as int, 0),
            *final(fuel) == *old(fuel),
            final(self).same_but_layers(old(self)),
            below(final(self).merging@, final(self).merging@.len() as int) == below(
                old(self).merging@,
                old(self).merging@.len() as int,
            ),
    {
        let length = self.merging.len();
        let mut index: usize = 0;
        proof {
            lemma_fuel_start(self.merging@, *fuel as int);
            lemma_moved_start(self.merging@, *fuel as int);
            lemma_low_start(self.merging@);
        }
        while index < length
            invariant
                index <= length,
                self.merging@.len() == length || (index == length && self.merging@.len() == length + 1
                    && !self.merging@[length as int].double()),
                self.same_but_layers(old(self)),
                fuel_state(self.merging@, index as int, *fuel as int, end, cap),
                below(self.merging@, self.merging@.len() as int) == below(
                    old(self).merging@,
                    old(self).merging@.len() as int,
                ),
                balanced(origin, self.merging@, self.advance_frontier@, None, None),
                sourced(origin, self.merging@, self.advance_frontier@, None, added),
                length == old(self).merging@.len(),
                self.merging@.len() >= length,
                fuel_applied(old(self).merging@, self.merging@, *fuel as int, index as int),
                merges_untouched(old(self).merging@, self.merging@, index as int),
                none_complete(self.merging@, index as int),
                moved_up(old(self).merging@, self.merging@, *fuel as int, index as int),
                above_untouched(old(self).merging@, self.merging@, index as int),
                low_untouched(old(self).merging@, self.merging@),
                single_upto(old(self).merging@, length - 1) ==> self.merging@.len() == length,
            decreases length - index,
        {
            let ghost before = self.merging@;
            let ghost advance = self.advance_frontier@;
            let ghost first = old(self).merging@;
            let mut tank = *fuel;
            proof {
                assert(before[index as int].fits(index as nat));
                if single_upto(first, length - 1) {
                    assert(!before[index as int].double()) by {
                        reveal(low_untouched);
                        lemma_single_upto(first, length - 1, index as int);
                        assert(before[index as int] == first[index as int]);
                    }
                }
            }
            self.merging[index].work(&mut tank);
            let ghost after_work = self.merging@;
            proof {
                lemma_worked(before, self.merging@, index as int, *fuel as int, end, cap);
                lemma_balanced_kept(origin, before, self.merging@, advance, None, None, index as int);
                lemma_sourced_kept(origin, before, self.merging@, advance, None, added, index as int, *fuel as int);
            }
            if self.merging[index].is_complete() {
                self.promote(
                    index,
                    Ghost(end),
                    Ghost(cap),
                    Ghost(origin),
                    Ghost(added),
                    Ghost(*fuel as int),
                );
            }
            proof {
                lemma_fuel_step(first, before, after_work[index as int], self.merging@, index as int, *fuel as int);
                lemma_moved_step(
                    first,
                    before,
                    after_work[index as int],
                    self.merging@,
                    index as int,
                    *fuel as int,
                    Some(self.advance_frontier),
                );
                lemma_low_step(first, before, after_work[index as int], self.merging@, index as int, *fuel as int);
            }
            index += 1;
        }
        proof {
            lemma_none_complete(self.merging@, length as int);
            let layers = self.merging@;
            let credit = credit_of(*fuel as int);
            assert forall|m: int| 0 <= m < layers.len() && (#[trigger] layers[m]).double() implies layers[m].remaining()
                + 4 * below(layers, m) + credit < 4 * pow2(m as nat) by {
                if m < index {
                    assert(layers[m].remaining() + 4 * below(layers, m) + credit < 4 * pow2(m as nat));
                }
            }
            assert forall|m: int| 0 <= m < layers.len() && (#[trigger] layers[m]).double() implies layers[m].remaining()
                + 4 * below(layers, m) + 0 < 4 * pow2(m as nat) by {
                assert(layers[m].remaining() + 4 * below(layers, m) + credit < 4 * pow2(m as nat));
            }
        }
    }

    /// Takes what the layers below `index` hold and merges it into one
    /// batch, the lowest layer first. The layers are vacant afterwards.
    #[verifier::rlimit(100)]
    fn fold_layers(
        &mut self,
        index: usize,
        Ghost(end): Ghost<Seq<u64>>,
        Ghost(cap): Ghost<int>,
        Ghost(origin): Ghost<Seq<MergeState>>,
        Ghost(added): Ghost<Option<Batch>>,
    ) -> (merge: Option<Batch>)
        requires
            index < old(self).merging@.len(),
            index + 2 < usize::MAX,
            fitting(old(self).merging@),
            chained(old(self).merging@, 0, old(self).merging@.len() as int, end),
            forall|m: int| 0 <= m <= index + 1 ==> !(#[trigger] layer_at(old(self).merging@, m)).double(),
            below(old(self).merging@, old(self).merging@.len() as int) + 2 * pow2(index as nat) <= cap,
            8 * cap <= isize::MAX,
            balanced(origin, old(self).merging@, old(self).advance_frontier@, None, None),
            sourced(origin, old(self).merging@, old(self).advance_frontier@, None, added),
        ensures
            final(self).same_but_layers(old(self)),
            final(self).merging@.len() == old(self).merging@.len(),
            vacant_below(final(self).merging@, index as int),
            forall|j: int|
                index <= j < old(self).merging@.len() ==> #[trigger] final(self).merging@[j] == old(self).merging@[j],
            batch_len(merge) < pow2(index as nat),
            merge is Some ==> batch_span(merge) == Some((start(old(self).merging@, 0, index as int, end), end)),
            merge is None ==> start(old(self).merging@, 0, index as int, end) == end,
            balanced(origin, final(self).merging@, old(self).advance_frontier@, merge, None),
            sourced(origin, final(self).merging@, old(self).advance_frontier@, merge, added),
            folds_one(old(self).merging@, index as int) ==> merge == old(self).merging@[first_occupied(
                old(self).merging@,
                0,
            )]->Single_0,
    {
        let ghost whole = self.merging@;
        let ghost advance = self.advance_frontier@;
        proof {
            lemma_pow2_positive(0);
            reveal(folds_one);
        }
        let mut merge: Option<Batch> = None;
        let mut level: usize = 0;
        while level < index
            invariant
                level <= index,
                index < whole.len(),
                index + 2 < usize::MAX,
                self.same_but_layers(old(self)),
                self.merging@.len() == whole.len(),
                vacant_below(self.merging@, level as int),
                forall|j: int| level <= j < whole.len() ==> #[trigger] self.merging@[j] == whole[j],
                fitting(whole),
                chained(whole, 0, whole.len() as int, end),
                forall|m: int| 0 <= m <= index + 1 ==> !(#[trigger] layer_at(whole, m)).double(),
                batch_len(merge) < pow2(level as nat),
                merge is Some ==> batch_span(merge) == Some((start(whole, 0, level as int, end), end)),
                merge is None ==> start(whole, 0, level as int, end) == end,
                below(whole, whole.len() as int) + 2 * pow2(index as nat) <= cap,
                8 * cap <= isize::MAX,
                advance == self.advance_frontier@,
                balanced(origin, self.merging@, advance, merge, None),
                sourced(origin, self.merging@, advance, merge, added),
                folds_one(whole, index as int) ==> merge == (if level > first_occupied(whole, 0) {
                    whole[first_occupied(whole, 0)]->Single_0
                } else {
                    None
                }),
            decreases index - level,
        {
            let ghost cur = self.merging@;
            let ghost hand = merge;
            proof {
                assert(self.merging@[level as int] == whole[level as int]);
                assert(!layer_at(whole, level as int).double());
                assert(whole[level as int].fits(level as nat));
                lemma_pow2_monotone(level as nat, index as nat);
                lemma_pow2_positive(level as nat);
                lemma_below_nonnegative(whole, whole.len() as int);
                if whole[level as int].span() is Some {
                    assert(span_upper(whole[level as int].span()) == start(whole, 0, level as int, end));
                }
                reveal(folds_one);
                if folds_one(whole, index as int) {
                    lemma_first_occupied(whole, 0);
                    lemma_first_occupied(whole, first_occupied(whole, 0) + 1);
                    if level != first_occupied(whole, 0) {
                        assert(whole[level as int].vacant());
                    }
                }
            }
            let found = self.merging[level].complete();
            match found {
                Some(batch) => {
                    let state = MergeState::begin_merge(Some(batch), merge, None);
                    let mut state = state;
                    proof {
                        lemma_remaining_begun(state, Some(batch), merge, None);
                    }
                    let ghost begun_state = state;
                    merge = state.complete();
                    proof {
                        assert(merge == found || (merge is Some && merge->0@.since == Seq::<u64>::empty()));
                        assert forall|d: u64, q: u64| #![trigger batch_acc(merge, d, q)]
                            cur[level as int].settled(q) implies congruent(
                            batch_acc(merge, d, q),
                            batch_acc(hand, d, q) + cur[level as int].acc(d, q),
                        ) by {
                            assert(begun_state.settled(q));
                            assert(begun_state.acc(d, q) == batch_acc(Some(batch), d, q) + batch_acc(hand, d, q));
                            assert(congruent(batch_acc(found, d, q), cur[level as int].acc(d, q)));
                        }
                    }
                },
                None => {
                    proof {
                        assert forall|d: u64, q: u64| #![trigger batch_acc(merge, d, q)]
                            cur[level as int].settled(q) implies congruent(
                            batch_acc(merge, d, q),
                            batch_acc(hand, d, q) + cur[level as int].acc(d, q),
                        ) by {
                            assert(congruent(batch_acc(found, d, q), cur[level as int].acc(d, q)));
                        }
                    }
                },
            }
            proof {
                lemma_balanced_taken(origin, cur, self.merging@, advance, hand, merge, None, level as int);
                lemma_sourced_taken(origin, cur, self.merging@, advance, hand, merge, added, level as int, found);
            }
            level += 1;
        }
        merge
    }

    /// Completes at once the merge that stands in layer `index` above vacant
    /// layers, and puts what it comes to into the layer above.
    #[verifier::rlimit(100)]
    fn raise_rolled(
        &mut self,
        index: usize,
        Ghost(end): Ghost<Seq<u64>>,
        Ghost(origin): Ghost<Seq<MergeState>>,
        Ghost(added): Ghost<Option<Batch>>,
    ) -> (merged: Ghost<Option<Batch>>)
        requires
            index + 2 < usize::MAX,
            index < old(self).merging@.len(),
            old(self).merging@[index as int].double(),
            old(self).merging@[index as int].spec_len() < 2 * pow2(index as nat),
            2 * pow2(index as nat) < isize::MAX,
            fitting(old(self).merging@),
            chained(old(self).merging@, 0, old(self).merging@.len() as int, end),
            vacant_below(old(self).merging@, index as int),
            !layer_at(old(self).merging@, index + 1).double(),
            fueled(old(self).merging@, index + 1, old(self).merging@.len() as int, 4 * (pow2(index as nat) as int)),
            balanced(origin, old(self).merging@, old(self).advance_frontier@, None, None),
            sourced(origin, old(self).merging@, old(self).advance_frontier@, None, added),
        ensures
            final(self).same_but_layers(old(self)),
            final(self).merging@.len() == if old(self).merging@.len() > index + 1 {
                old(self).merging@.len() as int
            } else {
                index + 2
            },
            forall|j: int|
                index + 1 < j < final(self).merging@.len() ==> #[trigger] final(self).merging@[j] == layer_at(
                    old(self).merging@,
                    j,
                ),
            fitting(final(self).merging@),
            chained(final(self).merging@, 0, final(self).merging@.len() as int, end),
            fueled(final(self).merging@, 0, final(self).merging@.len() as int, 4 * (pow2(index as nat) as int)),
            vacant_below(final(self).merging@, index + 1),
            below(final(self).merging@, final(self).merging@.len() as int) == below(
                old(self).merging@,
                old(self).merging@.len() as int,
            ),
            balanced(origin, final(self).merging@, final(self).advance_frontier@, None, None),
            sourced(origin, final(self).merging@, final(self).advance_frontier@, None, added),
            handed(old(self).merging@[index as int], merged@),
            placed(
                final(self).merging@[index + 1],
                layer_at(old(self).merging@, index + 1),
                merged@,
                Some(old(self).advance_frontier),
            ),
    {
        let ghost placed_at = self.merging@;
        let ghost advance = self.advance_frontier@;
        let ghost p = pow2(index as nat) as int;
        proof {
            lemma_pow2_positive(index as nat);
            assert(placed_at[index as int].fits(index as nat));
            lemma_remaining_nonnegative(placed_at[index as int], index as nat);
            lemma_below_vacant(placed_at, index as int);
            lemma_start_vacant(placed_at, 0, index as int, end);
        }
        let merged = self.merging[index].complete();
        let ghost emptied = self.merging@;
        proof {
            lemma_balanced_taken(origin, placed_at, emptied, advance, None, merged, None, index as int);
            lemma_sourced_taken(origin, placed_at, emptied, advance, None, merged, added, index as int, merged);
            assert(layer_at(emptied, index + 1) == layer_at(placed_at, index + 1));
            if index + 1 < placed_at.len() && placed_at[index + 1].span() is Some {
                assert(span_upper(placed_at[index + 1].span()) == start(placed_at, 0, index + 1, end));
            }
        }
        self.insert_at(merged, index + 1);
        let ghost last = self.merging@;
        proof {
            lemma_balanced_put(
                origin,
                emptied,
                last,
                advance,
                merged,
                None,
                merged,
                Some(self.advance_frontier),
                true,
                index + 1,
            );
            lemma_sourced_put(
                origin,
                emptied,
                last,
                advance,
                merged,
                added,
                merged,
                Some(self.advance_frontier),
                true,
                index + 1,
            );
            assert(pow2((index + 1) as nat) == 2 * p);
            assert forall|j: int| 0 <= j < index + 1 implies (#[trigger] emptied[j]).vacant() by {
                if j < index {
                    assert(emptied[j] == placed_at[j]);
                }
            }
            assert forall|j: int| index + 1 <= j < placed_at.len() implies #[trigger] emptied[j]
                == placed_at[j] by {}
            lemma_vacated(placed_at, emptied, index + 1, 4 * p);
            assert(below(placed_at, index + 1) == 2 * p) by {
                assert(below(placed_at, index + 1) == below(placed_at, index as int) + placed_at[index as int].accounted(
                    index as nat,
                ));
            }
            assert forall|j: int| 0 <= j < emptied.len() implies (#[trigger] emptied[j]).fits(j as nat) by {
                if j != index {
                    assert(emptied[j] == placed_at[j]);
                    assert(placed_at[j].fits(j as nat));
                }
            }
            lemma_placed_numeric(emptied, last, index + 1, merged, Some(self.advance_frontier), 4 * p);
            // The chain.
            let link = start(placed_at, 0, index + 1, end);
            assert forall|j: int| index + 1 <= j < emptied.len() && (#[trigger] emptied[j]).span() is Some implies span_upper(
                emptied[j].span(),
            ) == start(emptied, index + 1, j, link) by {
                assert(emptied[j] == placed_at[j]);
                assert(span_upper(placed_at[j].span()) == start(placed_at, 0, j, end));
                lemma_start_compose(placed_at, 0, index + 1, j, end);
                assert forall|i: int| index + 1 <= i < j implies (#[trigger] emptied[i]).span() == (
                #[trigger] placed_at[i]).span() by {}
                lemma_start_agree(emptied, placed_at, index + 1, j, link);
            }
            assert forall|j: int| 0 <= j < index + 1 implies (#[trigger] last[j]).span() is None by {
                assert(last[j] == layer_at(emptied, j));
                assert(emptied[j].vacant());
            }
            assert(start(placed_at, 0, index + 1, end) == match placed_at[index as int].span() {
                Some((lower, _)) => lower,
                None => start(placed_at, 0, index as int, end),
            });
            if placed_at[index as int].span() is Some {
                assert(span_upper(placed_at[index as int].span()) == start(placed_at, 0, index as int, end));
            }
            lemma_chain_placed(emptied, last, index + 1, merged, Some(self.advance_frontier), link, end);
            // The merge that may have begun in the layer above.
            assert forall|m: int| 0 <= m < last.len() && (#[trigger] last[m]).double() implies last[m].remaining()
                + 4 * below(last, m) + 4 * p < 4 * pow2(m as nat) by {
                if m == index + 1 {
                    assert(below(last, index + 1) == 0);
                    if index + 1 < placed_at.len() {
                        assert(placed_at[index + 1].fits((index + 1) as nat));
                    }
                } else if m > index + 1 {
                } else {
                    assert(last[m].vacant());
                }
            }
        }
        Ghost(merged)
    }

    /// Makes the layers below `index` vacant: what they hold is merged into
    /// one batch, which is put into layer `index`. If that layer then holds
    /// two batches, they are merged at once and the result is put into the
    /// layer above.
    #[verifier::rlimit(100)]
    fn roll_up(
        &mut self,
        index: usize,
        Ghost(end): Ghost<Seq<u64>>,
        Ghost(credit): Ghost<int>,
        Ghost(cap): Ghost<int>,
        Ghost(origin): Ghost<Seq<MergeState>>,
        Ghost(added): Ghost<Option<Batch>>,
    )
        requires
            balanced(origin, old(self).merging@, old(self).advance_frontier@, None, None),
            sourced(origin, old(self).merging@, old(self).advance_frontier@, None, added),
            index + 2 < usize::MAX,
            fitting(old(self).merging@),
            chained(old(self).merging@, 0, old(self).merging@.len() as int, end),
            fueled(old(self).merging@, 0, old(self).merging@.len() as int, credit),
            credit >= 8 * pow2(index as nat),
            below(old(self).merging@, old(self).merging@.len() as int) + 2 * pow2(index as nat) <= cap,
            8 * cap <= isize::MAX,
        ensures
            balanced(origin, final(self).merging@, final(self).advance_frontier@, None, None),
            sourced(origin, final(self).merging@, final(self).advance_frontier@, None, added),
            forall|j: int|
                index + 1 < j < final(self).merging@.len() ==> #[trigger] final(self).merging@[j] == layer_at(
                    old(self).merging@,
                    j,
                ),
            final(self).same_but_layers(old(self)),
            final(self).merging@.len() > index,
            final(self).merging@.len() >= old(self).merging@.len(),
            fitting(final(self).merging@),
            chained(final(self).merging@, 0, final(self).merging@.len() as int, end),
            fueled(final(self).merging@, 0, final(self).merging@.len() as int, 4 * (pow2(index as nat) as int)),
            vacant_below(final(self).merging@, index as int),
            !final(self).merging@[index as int].double(),
            rolled(old(self).merging@, final(self).merging@, index as int, old(self).advance_frontier@),
            below(final(self).merging@, final(self).merging@.len() as int) <= below(
                old(self).merging@,
                old(self).merging@.len() as int,
            ) + pow2(index as nat),
    {
        let ghost first = self.merging@;
        let ghost p = pow2(index as nat) as int;
        proof {
            lemma_pow2_positive(index as nat);
        }
        while self.merging.len() <= index
            invariant
                self.same_but_layers(old(self)),
                self.merging@.len() >= first.len(),
                self.merging@.len() <= index + 1 || self.merging@.len() == first.len(),
                forall|j: int| 0 <= j < self.merging@.len() ==> #[trigger] self.merging@[j] == layer_at(first, j),
            decreases index + 1 - self.merging@.len(),
        {
            self.merging.push(MergeState::Vacant);
        }
        let ghost whole = self.merging@;
        let ghost advance = self.advance_frontier@;
        proof {
            lemma_balanced_extended(origin, first, whole, advance, None, None);
            lemma_sourced_extended(origin, first, whole, advance, None, added);
            // Vacant layers at the top change nothing.
            assert forall|j: int| 0 <= j < whole.len() implies (#[trigger] whole[j]).fits(j as nat) by {
                if j < first.len() {
                    assert(first[j].fits(j as nat));
                }
            }
            assert forall|m: int| 0 <= m <= whole.len() implies below(whole, m) == below(
                first,
                if m <= first.len() {
                    m
                } else {
                    first.len() as int
                },
            ) by {
                lemma_below_extended(first, whole, m);
            }
            assert forall|j: int| 0 <= j < whole.len() && (#[trigger] whole[j]).span() is Some implies span_upper(
                whole[j].span(),
            ) == start(whole, 0, j, end) by {
                assert(j < first.len());
                assert forall|i: int| 0 <= i < j implies (#[trigger] whole[i]).span() == (#[trigger] first[i]).span() by {}
                lemma_start_agree(whole, first, 0, j, end);
            }
            assert forall|m: int| 0 <= m < whole.len() && (#[trigger] whole[m]).double() implies whole[m].remaining()
                + 4 * below(whole, m) + credit < 4 * pow2(m as nat) by {
                assert(m < first.len());
                assert(whole[m] == first[m]);
            }
            assert forall|m: int| 0 <= m <= index + 1 implies !(#[trigger] layer_at(whole, m)).double() by {
                lemma_no_double_low(whole, index as int, credit, m);
            }
            assert(lengthened(first, whole, index as int));
        }
        // If all layers below the point of insertion are vacant, there is
        // nothing to do.
        let mut any = false;
        let mut scan: usize = 0;
        while scan < index
            invariant
                scan <= index,
                index < self.merging@.len(),
                self.merging@ == whole,
                !any ==> vacant_below(whole, scan as int),
                any ==> exists|i: int| 0 <= i < scan && !(#[trigger] whole[i]).vacant(),
            decreases index - scan,
        {
            if !self.merging[scan].is_vacant() {
                any = true;
            }
            scan += 1;
        }
        proof {
            if any {
                let i = choose|i: int| 0 <= i < scan && !(#[trigger] whole[i]).vacant();
                if i < first.len() {
                    assert(whole[i] == first[i]);
                }
                assert(!vacant_under(first, index as int));
            }
        }
        if any {
            // Collect and merge what the layers below `index` hold.
            let merge = self.fold_layers(index, Ghost(end), Ghost(cap), Ghost(origin), Ghost(added));
            let ghost folded = self.merging@;
            assert(folded[index as int] == whole[index as int]);
            proof {
                assert(!layer_at(whole, index as int).double());
                if whole[index as int].span() is Some {
                    assert(span_upper(whole[index as int].span()) == start(whole, 0, index as int, end));
                }
            }
            self.insert_at(merge, index);
            let ghost placed_at = self.merging@;
            proof {
                lemma_balanced_put(
                    origin,
                    folded,
                    placed_at,
                    advance,
                    merge,
                    None,
                    merge,
                    Some(self.advance_frontier),
                    true,
                    index as int,
                );
                lemma_sourced_put(
                    origin,
                    folded,
                    placed_at,
                    advance,
                    merge,
                    added,
                    merge,
                    Some(self.advance_frontier),
                    true,
                    index as int,
                );
                lemma_vacated(whole, folded, index as int, credit);
                lemma_below_nonnegative(whole, index as int);
                lemma_placed_numeric(folded, placed_at, index as int, merge, Some(self.advance_frontier), 4 * p);
                // The layers from `index` on were chained to where the
                // layers below started.
                let link = start(whole, 0, index as int, end);
                assert forall|j: int| index <= j < folded.len() && (#[trigger] folded[j]).span() is Some implies span_upper(
                    folded[j].span(),
                ) == start(folded, index as int, j, link) by {
                    assert(folded[j] == whole[j]);
                    assert(span_upper(whole[j].span()) == start(whole, 0, j, end));
                    lemma_start_compose(whole, 0, index as int, j, end);
                    assert forall|i: int| index <= i < j implies (#[trigger] folded[i]).span() == (
                    #[trigger] whole[i]).span() by {}
                    lemma_start_agree(folded, whole, index as int, j, link);
                }
                assert forall|j: int| 0 <= j < index implies (#[trigger] placed_at[j]).span() is None by {
                    assert(placed_at[j] == layer_at(folded, j));
                    assert(folded[j].vacant());
                }
                lemma_chain_placed(folded, placed_at, index as int, merge, Some(self.advance_frontier), link, end);
            }
            proof {
                assert(whole[index as int] == layer_at(first, index as int));
                assert(placed(placed_at[index as int], whole[index as int], merge, Some(old(self).advance_frontier)));
            }
            if self.merging[index].is_double() {
                proof {
                    assert(placed_at[index as int].fits(index as nat));
                    lemma_below_nonnegative(whole, whole.len() as int);
                    assert(2 * p < isize::MAX);
                    assert(!layer_at(whole, index + 1).double());
                    assert(layer_at(placed_at, index + 1) == layer_at(whole, index + 1));
                    assert(!layer_at(placed_at, index + 1).double());
                    assert(whole[index as int].fits(index as nat));
                    assert(batch_len(merge) < p);
                    assert(placed(
                        placed_at[index as int],
                        whole[index as int],
                        merge,
                        Some(old(self).advance_frontier),
                    ));
                    assert(whole[index as int].single());
                    assert(placed_at[index as int].spec_len() <= whole[index as int].spec_len() + batch_len(merge));
                    assert(placed_at[index as int].spec_len() < 2 * p);
                }
                let merged = self.raise_rolled(index, Ghost(end), Ghost(origin), Ghost(added));
                let ghost last = self.merging@;
                proof {
                    lemma_rolled_raised(
                        first,
                        whole,
                        placed_at[index as int],
                        last,
                        index as int,
                        merge,
                        merged@,
                        Some(old(self).advance_frontier),
                        advance,
                    );
                }
            } else {
                proof {
                    assert(!layer_at(whole, index + 1).double());
                    assert forall|j: int| index < j < placed_at.len() implies #[trigger] placed_at[j] == whole[j] by {
                        assert(placed_at[j] == layer_at(folded, j));
                    }
                    lemma_rolled_put(
                        first,
                        whole,
                        placed_at,
                        index as int,
                        merge,
                        Some(old(self).advance_frontier),
                        advance,
                    );
                    assert forall|m: int| 0 <= m < placed_at.len() && (#[trigger] placed_at[m]).double() implies placed_at[m].remaining()
                        + 4 * below(placed_at, m) + 4 * p < 4 * pow2(m as nat) by {
                        if m < index {
                            assert(placed_at[m].vacant());
                        }
                    }
                }
            }
        } else {
            proof {
                assert forall|m: int| 0 <= m < whole.len() && (#[trigger] whole[m]).double() implies whole[m].remaining()
                    + 4 * below(whole, m) + 4 * p < 4 * pow2(m as nat) by {
                    assert(whole[m].remaining() + 4 * below(whole, m) + credit < 4 * pow2(m as nat));
                }
                assert(below(whole, whole.len() as int) == below(first, first.len() as int));
                assert(!layer_at(whole, index as int).double());
                assert(!layer_at(whole, index + 1).double());
                lemma_rolled_none(first, whole, index as int, advance);
            }
        }
    }

    /// Puts a batch into the layer at `index`, which holds at most one
    /// batch. The list of layers is made longer where it is too short.
    fn insert_at(&mut self, batch: Option<Batch>, index: usize)
        requires
            index < usize::MAX,
            !layer_at(old(self).merging@, index as int).double(),
            layer_at(old(self).merging@, index as int).single() && layer_at(
                old(self).merging@,
                index as int,
            )->Single_0 is Some && batch is Some ==> layer_at(old(self).merging@, index as int)->Single_0->0@.upper
                == batch->0@.lower,
        ensures
            final(self).same_but_layers(old(self)),
            final(self).merging@.len() == if old(self).merging@.len() > index {
                old(self).merging@.len() as int
            } else {
                index + 1
            },
            forall|j: int|
                0 <= j < final(self).merging@.len() && j != index ==> #[trigger] final(self).merging@[j]
                    == layer_at(old(self).merging@, j),
            placed(
                final(self).merging@[index as int],
                layer_at(old(self).merging@, index as int),
                batch,
                Some(old(self).advance_frontier),
            ),
    {
        while self.merging.len() <= index
            invariant
                self.same_but_layers(old(self)),
                self.merging@.len() >= old(self).merging@.len(),
                self.merging@.len() <= index + 1 || self.merging@.len() == old(self).merging@.len(),
                forall|j: int| 0 <= j < self.merging@.len() ==> #[trigger] self.merging@[j] == layer_at(
                    old(self).merging@,
                    j,
                ),
            decreases index + 1 - self.merging@.len(),
        {
            self.merging.push(MergeState::Vacant);
        }
        let frontier = Some(frontier_to_vec(self.advance_frontier.as_slice()));
        self.merging[index].insert(batch, frontier);
    }

    /// Moves the one batch of the highest layer down for as long as it is
    /// small enough for the layer below and that layer is vacant.
    fn tidy_layers(
        &mut self,
        Ghost(end): Ghost<Seq<u64>>,
        Ghost(cap): Ghost<int>,
        Ghost(origin): Ghost<Seq<MergeState>>,
        Ghost(added): Ghost<Option<Batch>>,
    )
        requires
            balanced(origin, old(self).merging@, old(self).advance_frontier@, None, added),
            sourced(origin, old(self).merging@, old(self).advance_frontier@, None, added),
            old(self).merging@.len() >= 1,
            fitting(old(self).merging@),
            chained(old(self).merging@, 0, old(self).merging@.len() as int, end),
            fueled(old(self).merging@, 0, old(self).merging@.len() as int, 0),
            below(old(self).merging@, old(self).merging@.len() as int) <= cap,
            8 * cap <= isize::MAX,
        ensures
            balanced(origin, final(self).merging@, final(self).advance_frontier@, None, added),
            sourced(origin, final(self).merging@, final(self).advance_frontier@, None, added),
            final(self).same_but_layers(old(self)),
            final(self).merging@.len() >= 1,
            fitting(final(self).merging@),
            chained(final(self).merging@, 0, final(self).merging@.len() as int, end),
            fueled(final(self).merging@, 0, final(self).merging@.len() as int, 0),
            below(final(self).merging@, final(self).merging@.len() as int) <= below(
                old(self).merging@,
                old(self).merging@.len() as int,
            ),
            tidied(old(self).merging@, final(self).merging@),
    {
        let mut length = self.merging.len();
        let ghost first = self.merging@;
        if self.merging[length - 1].is_single() {
            proof {
                lemma_index_bound(self.merging@, length - 1);
                assert(self.merging@[length - 1].fits((length - 1) as nat));
            }
            while ceil_log2(self.merging[length - 1].len()) < length - 1 && length > 1 && self.merging[length
                - 2].is_vacant()
                invariant
                    length == self.merging@.len(),
                    length >= 1,
                    self.same_but_layers(old(self)),
                    self.merging@[length - 1].single(),
                    self.merging@[length - 1].spec_len() <= usize::MAX,
                    fitting(self.merging@),
                    chained(self.merging@, 0, self.merging@.len() as int, end),
                    fueled(self.merging@, 0, self.merging@.len() as int, 0),
                    below(self.merging@, self.merging@.len() as int) <= below(
                        old(self).merging@,
                        old(self).merging@.len() as int,
                    ),
                    balanced(origin, self.merging@, self.advance_frontier@, None, added),
                    first == old(self).merging@,
                    length <= first.len(),
                    forall|i: int| 0 <= i < length - 1 ==> #[trigger] self.merging@[i] == first[i],
                    self.merging@[length - 1] == first[first.len() - 1],
                    forall|i: int| length - 1 <= i < first.len() - 1 ==> (#[trigger] first[i]).vacant(),
                    length < first.len() ==> ceil_log2_spec(first[first.len() - 1].spec_len() as nat) <= length - 1,
                decreases length,
            {
                let ghost before = self.merging@;
                proof {
                    let n = before[length - 1].spec_len();
                    crate::levels::lemma_ceil_log2(n as nat);
                    lemma_pow2_monotone(ceil_log2_spec(n as nat), (length - 2) as nat);
                }
                let batch = self.merging.pop().unwrap();
                self.merging[length - 2] = batch;
                length = self.merging.len();
                proof {
                    lemma_tidied(before, self.merging@, end);
                    lemma_balanced_tidied(origin, before, self.merging@, self.advance_frontier@, added);
                }
            }
        }
        proof {
            lemma_sourced_tidied(origin, first, self.merging@, self.advance_frontier@, added);
        }
    }
}

} // verus!
