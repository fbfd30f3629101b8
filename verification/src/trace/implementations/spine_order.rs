//! What must hold of the layers of a spine for merging to go well.
//!
//! Three things are kept: every layer holds batches that are small enough
//! for it; the batches follow one another without a gap; and every merge
//! will be paid for before its layer is needed for the next batch. This
//! module states them for a list of layers and shows that the steps of the
//! spine keep them.

use vstd::prelude::*;
use crate::levels::ceil_log2_spec;
use crate::levels::lemma_pow2_above;
use crate::levels::lemma_pow2_monotone;
use crate::levels::lemma_pow2_positive;
use crate::levels::pow2;
use crate::trace::batch::Batch;
use crate::trace::implementations::spine_layers::MergeState;
use crate::trace::implementations::spine_layers::batch_len;
use crate::trace::implementations::spine_layers::batch_span;
use crate::trace::implementations::spine_layers::layer_at;
use crate::trace::implementations::spine_layers::lemma_remaining_nonnegative;
use crate::trace::implementations::spine_layers::placed;
use crate::trace::implementations::spine_layers::result_of;
use crate::trace::implementations::spine_layers::span_lower;
use crate::trace::implementations::spine_layers::span_upper;
use crate::trace::implementations::spine_layers::worked;

verus! {

/// The size accounted in the layers below index `m`.
pub(crate) open spec fn below(layers: Seq<MergeState>, m: int) -> int
    decreases m,
{
    if m <= 0 {
        0
    } else {
        below(layers, m - 1) + layers[m - 1].accounted((m - 1) as nat)
    }
}

/// The frontier at which the layers from `from` up to `m` start: the lower
/// frontier of the highest of them that covers anything, and `end` where
/// none does.
pub(crate) open spec fn start(layers: Seq<MergeState>, from: int, m: int, end: Seq<u64>) -> Seq<u64>
    decreases m - from,
{
    if m <= from {
        end
    } else {
        match layers[m - 1].span() {
            Some((lower, _)) => lower,
            None => start(layers, from, m - 1, end),
        }
    }
}

/// Each of the layers from `from` up to `to` ends where the layers below
/// it, down to `from`, start; the lowest ends at `end`.
pub(crate) open spec fn chained(layers: Seq<MergeState>, from: int, to: int, end: Seq<u64>) -> bool {
    forall|j: int|
        from <= j < to && (#[trigger] layers[j]).span() is Some ==> span_upper(layers[j].span()) == start(
            layers,
            from,
            j,
            end,
        )
}

/// Every layer may stand where it stands.
pub(crate) open spec fn fitting(layers: Seq<MergeState>) -> bool {
    forall|j: int| 0 <= j < layers.len() ==> (#[trigger] layers[j]).fits(j as nat)
}

/// Every layer from `from` up to `to` that holds two batches has less work
/// left than it will be paid for: the work left, four times the size
/// accounted below it and `credit` come to less than four times its size.
pub(crate) open spec fn fueled(layers: Seq<MergeState>, from: int, to: int, credit: int) -> bool {
    forall|m: int|
        from <= m < to && (#[trigger] layers[m]).double() ==> layers[m].remaining() + 4 * below(layers, m)
            + credit < 4 * pow2(m as nat)
}

/// All layers below `m` are vacant.
pub(crate) open spec fn vacant_below(layers: Seq<MergeState>, m: int) -> bool {
    forall|j: int| 0 <= j < m ==> (#[trigger] layers[j]).vacant()
}

/// Every layer below `m` that is there is vacant.
pub(crate) open spec fn vacant_under(layers: Seq<MergeState>, m: int) -> bool {
    forall|j: int| 0 <= j < m && j < layers.len() ==> (#[trigger] layers[j]).vacant()
}

/// The fuel that counts: none where the fuel is negative.
pub(crate) open spec fn credit_of(fuel: int) -> int {
    if fuel > 0 {
        fuel
    } else {
        0
    }
}

/// The layers while fuel is applied: the layers below `done` have had their
/// fuel, the others have not.
pub(crate) open spec fn fuel_state(layers: Seq<MergeState>, done: int, fuel: int, end: Seq<u64>, cap: int) -> bool {
    &&& fitting(layers)
    &&& chained(layers, 0, layers.len() as int, end)
    &&& fueled(layers, 0, done, credit_of(fuel))
    &&& fueled(layers, done, layers.len() as int, 0)
    &&& below(layers, layers.len() as int) <= cap
    &&& 8 * cap <= isize::MAX
}

/// Where the layers must end for `batch` to follow them: where the batch
/// begins, or at `end` for a placeholder.
pub(crate) open spec fn link_of(batch: Option<Batch>, end: Seq<u64>) -> Seq<u64> {
    match batch {
        Some(b) => b@.lower,
        None => end,
    }
}

pub(crate) proof fn lemma_below_nonnegative(layers: Seq<MergeState>, m: int)
    ensures
        below(layers, m) >= 0,
    decreases m,
{
    if m > 0 {
        lemma_below_nonnegative(layers, m - 1);
    }
}

pub(crate) proof fn lemma_below_monotone(layers: Seq<MergeState>, m: int, n: int)
    requires
        m <= n,
    ensures
        below(layers, m) <= below(layers, n),
    decreases n - m,
{
    if m < n {
        lemma_below_monotone(layers, m, n - 1);
        if n - 1 < 0 {
            lemma_below_nonnegative(layers, m);
        }
    } else {
    }
    lemma_below_nonnegative(layers, m);
    lemma_below_nonnegative(layers, n);
}

/// Layers that are accounted alike below `m` come to the same size there.
pub(crate) proof fn lemma_below_agree(a: Seq<MergeState>, b: Seq<MergeState>, m: int)
    requires
        forall|j: int| 0 <= j < m ==> (#[trigger] a[j]).accounted(j as nat) == (#[trigger] b[j]).accounted(j as nat),
    ensures
        below(a, m) == below(b, m),
    decreases m,
{
    if m > 0 {
        lemma_below_agree(a, b, m - 1);
    }
}

/// Where the layers from `from` on are accounted alike, the sizes below
/// `m` differ by what the sizes below `from` differ.
pub(crate) proof fn lemma_below_shift(a: Seq<MergeState>, b: Seq<MergeState>, from: int, m: int)
    requires
        0 <= from <= m,
        forall|j: int| from <= j < m ==> (#[trigger] a[j]).accounted(j as nat) == (#[trigger] b[j]).accounted(j as nat),
    ensures
        below(b, m) - below(a, m) == below(b, from) - below(a, from),
    decreases m,
{
    if m > from {
        lemma_below_shift(a, b, from, m - 1);
    }
}

/// Nothing is accounted below `m` where all layers below `m` are vacant.
pub(crate) proof fn lemma_below_vacant(layers: Seq<MergeState>, m: int)
    requires
        vacant_below(layers, m),
    ensures
        below(layers, m) == 0,
    decreases m,
{
    if m > 0 {
        lemma_below_vacant(layers, m - 1);
    }
}

/// Vacant layers on top of a list add nothing to what is accounted.
pub(crate) proof fn lemma_below_extended(short: Seq<MergeState>, long: Seq<MergeState>, m: int)
    requires
        short.len() <= long.len(),
        forall|j: int| 0 <= j < long.len() ==> #[trigger] long[j] == layer_at(short, j),
        0 <= m <= long.len(),
    ensures
        below(long, m) == below(short, if m <= short.len() {
            m
        } else {
            short.len() as int
        }),
    decreases m,
{
    if m > 0 {
        lemma_below_extended(short, long, m - 1);
        assert(long[m - 1] == layer_at(short, m - 1));
    }
}

/// Layers that cover the same from `from` up to `m` start at the same
/// frontier.
pub(crate) proof fn lemma_start_agree(a: Seq<MergeState>, b: Seq<MergeState>, from: int, m: int, end: Seq<u64>)
    requires
        forall|j: int| from <= j < m ==> (#[trigger] a[j]).span() == (#[trigger] b[j]).span(),
    ensures
        start(a, from, m, end) == start(b, from, m, end),
    decreases m - from,
{
    if m > from {
        lemma_start_agree(a, b, from, m - 1, end);
    }
}

/// The start of the layers from `from` up to `m` is the start of those from
/// `mid` up to `m`, taken from where the layers below `mid` start.
pub(crate) proof fn lemma_start_compose(layers: Seq<MergeState>, from: int, mid: int, m: int, end: Seq<u64>)
    requires
        from <= mid <= m,
    ensures
        start(layers, from, m, end) == start(layers, mid, m, start(layers, from, mid, end)),
    decreases m - mid,
{
    if m > mid {
        lemma_start_compose(layers, from, mid, m - 1, end);
    }
}

/// Layers that cover nothing from `from` up to `m` start at `end`.
pub(crate) proof fn lemma_start_vacant(layers: Seq<MergeState>, from: int, m: int, end: Seq<u64>)
    requires
        forall|j: int| from <= j < m ==> (#[trigger] layers[j]).span() is None,
    ensures
        start(layers, from, m, end) == end,
    decreases m - from,
{
    if m > from {
        lemma_start_vacant(layers, from, m - 1, end);
    }
}

/// Layers that are chained from the lowest on are chained from `k` on to
/// where the layers below `k` start.
pub(crate) proof fn lemma_chained_from(layers: Seq<MergeState>, k: int, end: Seq<u64>)
    requires
        0 <= k <= layers.len(),
        chained(layers, 0, layers.len() as int, end),
    ensures
        chained(layers, k, layers.len() as int, start(layers, 0, k, end)),
{
    assert forall|j: int| k <= j < layers.len() && (#[trigger] layers[j]).span() is Some implies span_upper(
        layers[j].span(),
    ) == start(layers, k, j, start(layers, 0, k, end)) by {
        lemma_start_compose(layers, 0, k, j, end);
    }
}

/// A layer that holds anything has an index that is small against the
/// accounted size.
pub(crate) proof fn lemma_index_bound(layers: Seq<MergeState>, i: int)
    requires
        0 <= i < layers.len(),
        !layers[i].vacant(),
    ensures
        i + 1 <= pow2(i as nat) <= below(layers, layers.len() as int),
        layers[i].accounted(i as nat) <= below(layers, layers.len() as int),
{
    lemma_pow2_above(i as nat);
    lemma_below_monotone(layers, i + 1, layers.len() as int);
    lemma_below_nonnegative(layers, i);
    lemma_pow2_positive(i as nat);
}

/// Applying fuel to one layer keeps the state of the layers.
pub(crate) proof fn lemma_worked(
    before: Seq<MergeState>,
    after: Seq<MergeState>,
    i: int,
    fuel: int,
    end: Seq<u64>,
    cap: int,
)
    requires
        0 <= i < before.len(),
        fuel_state(before, i, fuel, end, cap),
        after.len() == before.len(),
        forall|j: int| 0 <= j < before.len() && j != i ==> #[trigger] after[j] == before[j],
        worked(before[i], after[i], fuel),
    ensures
        fitting(after),
        chained(after, 0, after.len() as int, end),
        fueled(after, 0, i, credit_of(fuel)),
        fueled(after, i + 1, after.len() as int, 0),
        below(after, after.len() as int) == below(before, before.len() as int),
        after[i].double() ==> after[i].remaining() + 4 * below(after, i) + (if after[i].complete_merge() {
            0
        } else {
            credit_of(fuel)
        }) < 4 * pow2(i as nat),
        after[i].double() ==> after[i].remaining() < isize::MAX,
{
    assert forall|j: int| 0 <= j < before.len() implies (#[trigger] after[j]).accounted(j as nat) == (
    #[trigger] before[j]).accounted(j as nat) && after[j].span() == before[j].span() by {
        if j != i {
            assert(after[j] == before[j]);
        }
    }
    assert forall|m: int| 0 <= m <= before.len() implies below(after, m) == below(before, m) by {
        assert forall|j: int| 0 <= j < m implies (#[trigger] after[j]).accounted(j as nat) == (
        #[trigger] before[j]).accounted(j as nat) by {}
        lemma_below_agree(after, before, m);
    }
    assert forall|j: int| 0 <= j < after.len() implies (#[trigger] after[j]).fits(j as nat) by {
        if j != i {
            assert(after[j] == before[j]);
        } else {
            assert(before[i].fits(i as nat));
        }
    }
    assert forall|j: int| 0 <= j < after.len() && (#[trigger] after[j]).span() is Some implies span_upper(
        after[j].span(),
    ) == start(after, 0, j, end) by {
        assert(after[j].span() == before[j].span());
        assert forall|k: int| 0 <= k < j implies (#[trigger] after[k]).span() == (#[trigger] before[k]).span() by {}
        lemma_start_agree(after, before, 0, j, end);
    }
    assert forall|m: int| 0 <= m < i && (#[trigger] after[m]).double() implies after[m].remaining() + 4 * below(
        after,
        m,
    ) + credit_of(fuel) < 4 * pow2(m as nat) by {
        assert(after[m] == before[m]);
    }
    assert forall|m: int| i + 1 <= m < after.len() && (#[trigger] after[m]).double() implies after[m].remaining()
        + 4 * below(after, m) + 0 < 4 * pow2(m as nat) by {
        assert(after[m] == before[m]);
    }
    if after[i].double() {
        assert(before[i].double());
        assert(before[i].fits(i as nat));
        assert(before[i].remaining() + 4 * below(before, i) + 0 < 4 * pow2(i as nat));
        lemma_below_nonnegative(after, i);
        lemma_index_bound(before, i);
        lemma_remaining_nonnegative(before[i], i as nat);
    }
}

/// The layer above one that holds two batches holds at most one, and if it
/// holds a batch, that batch ends where the two begin.
pub(crate) proof fn lemma_promote_ready(layers: Seq<MergeState>, i: int, fuel: int, end: Seq<u64>, cap: int)
    requires
        0 <= i < layers.len(),
        fitting(layers),
        chained(layers, 0, layers.len() as int, end),
        fueled(layers, i + 1, layers.len() as int, 0),
        below(layers, layers.len() as int) <= cap,
        8 * cap <= isize::MAX,
        layers[i].double(),
    ensures
        !layer_at(layers, i + 1).double(),
        i + 2 < usize::MAX,
        layer_at(layers, i + 1).span() is Some && layers[i].span() is Some ==> span_upper(
            layer_at(layers, i + 1).span(),
        ) == span_lower(layers[i].span()),
{
    lemma_index_bound(layers, i);
    if i + 1 < layers.len() {
        lemma_below_nonnegative(layers, i);
        if layers[i + 1].double() {
            assert(below(layers, i + 1) >= 2 * pow2(i as nat));
            assert(pow2((i + 1) as nat) == 2 * pow2(i as nat));
            assert(layers[i + 1].fits((i + 1) as nat));
            lemma_remaining_nonnegative(layers[i + 1], (i + 1) as nat);
            assert(layers[i + 1].remaining() + 4 * below(layers, i + 1) + 0 < 4 * pow2((i + 1) as nat));
            assert(false);
        }
        if layers[i + 1].span() is Some {
            assert(span_upper(layers[i + 1].span()) == start(layers, 0, i + 1, end));
        }
    }
}

/// Moving what a complete merge came to into the layer above keeps the
/// state of the layers.
pub(crate) proof fn lemma_promoted(
    before: Seq<MergeState>,
    after: Seq<MergeState>,
    i: int,
    x: Option<Batch>,
    frontier: Option<Vec<u64>>,
    fuel: int,
    end: Seq<u64>,
    cap: int,
)
    requires
        0 <= i < before.len(),
        fitting(before),
        chained(before, 0, before.len() as int, end),
        fueled(before, 0, i, credit_of(fuel)),
        fueled(before, i, before.len() as int, 0),
        below(before, before.len() as int) <= cap,
        8 * cap <= isize::MAX,
        before[i].double(),
        batch_span(x) == before[i].span(),
        batch_len(x) <= before[i].spec_len(),
        after.len() == (if before.len() > i + 1 {
            before.len() as int
        } else {
            i + 2
        }),
        forall|j: int| 0 <= j < after.len() && j != i && j != i + 1 ==> #[trigger] after[j] == layer_at(before, j),
        after[i].vacant(),
        placed(after[i + 1], layer_at(before, i + 1), x, frontier),
    ensures
        fuel_state(after, i + 1, fuel, end, cap),
        below(after, after.len() as int) == below(before, before.len() as int),
{
    let up = layer_at(before, i + 1);
    lemma_promote_ready(before, i, fuel, end, cap);
    lemma_pow2_positive(i as nat);
    // What is accounted.
    assert(after[i + 1].accounted((i + 1) as nat) == up.accounted((i + 1) as nat) + before[i].accounted(
        i as nat,
    ));
    assert forall|j: int| 0 <= j < i implies (#[trigger] after[j]).accounted(j as nat) == (
    #[trigger] before[j]).accounted(j as nat) by {
        assert(after[j] == layer_at(before, j));
    }
    lemma_below_agree(after, before, i);
    assert(below(after, i + 2) == below(before, i) + before[i].accounted(i as nat) + up.accounted(
        (i + 1) as nat,
    )) by {
        assert(below(after, i + 1) == below(after, i));
    }
    assert(below(before, i + 1) == below(before, i) + before[i].accounted(i as nat));
    if before.len() > i + 1 {
        assert(below(before, i + 2) == below(before, i + 1) + up.accounted((i + 1) as nat));
        assert forall|m: int| i + 2 <= m <= after.len() implies below(after, m) == below(before, m) by {
            assert forall|j: int| i + 2 <= j < m implies (#[trigger] before[j]).accounted(j as nat) == (
            #[trigger] after[j]).accounted(j as nat) by {
                assert(after[j] == layer_at(before, j));
            }
            lemma_below_shift(before, after, i + 2, m);
        }
    } else {
        assert(below(after, i + 2) == below(before, i + 1));
    }
    // Every layer may stand where it stands.
    assert forall|j: int| 0 <= j < after.len() implies (#[trigger] after[j]).fits(j as nat) by {
        if j == i + 1 {
            assert(before[i].fits(i as nat));
            if i + 1 < before.len() {
                assert(before[i + 1].fits((i + 1) as nat));
            }
        } else if j != i {
            assert(after[j] == layer_at(before, j));
            assert(before[j].fits(j as nat));
        }
    }
    // The layers follow one another.
    assert forall|j: int| 0 <= j < i implies (#[trigger] after[j]).span() == (#[trigger] before[j]).span() by {
        assert(after[j] == layer_at(before, j));
    }
    lemma_start_agree(after, before, 0, i, end);
    assert(start(after, 0, i + 1, end) == start(before, 0, i, end));
    if i + 1 < before.len() && before[i + 1].span() is Some {
        assert(span_upper(before[i + 1].span()) == start(before, 0, i + 1, end));
    }
    if before[i].span() is Some {
        assert(span_upper(before[i].span()) == start(before, 0, i, end));
    }
    if i + 1 < before.len() {
        assert(start(before, 0, i + 1, end) == match before[i].span() {
            Some((lower, _)) => lower,
            None => start(before, 0, i, end),
        });
        assert(start(before, 0, i + 2, end) == match before[i + 1].span() {
            Some((lower, _)) => lower,
            None => start(before, 0, i + 1, end),
        });
        assert(start(after, 0, i + 2, end) == match after[i + 1].span() {
            Some((lower, _)) => lower,
            None => start(after, 0, i + 1, end),
        });
        assert(start(after, 0, i + 2, end) == start(before, 0, i + 2, end));
    }
    assert forall|j: int| 0 <= j < after.len() && (#[trigger] after[j]).span() is Some implies span_upper(
        after[j].span(),
    ) == start(after, 0, j, end) by {
        if j < i {
            assert(after[j] == layer_at(before, j));
            assert forall|k: int| 0 <= k < j implies (#[trigger] after[k]).span() == (#[trigger] before[k]).span() by {
                assert(after[k] == layer_at(before, k));
            }
            lemma_start_agree(after, before, 0, j, end);
        } else if j == i + 1 {
        } else if j > i + 1 {
            assert(after[j] == layer_at(before, j));
            assert forall|k: int| i + 2 <= k < j implies (#[trigger] after[k]).span() == (
            #[trigger] before[k]).span() by {
                assert(after[k] == layer_at(before, k));
            }
            lemma_start_compose(after, 0, i + 2, j, end);
            lemma_start_compose(before, 0, i + 2, j, end);
            lemma_start_agree(after, before, i + 2, j, start(before, 0, i + 2, end));
        }
    }
    // Every merge will be paid for.
    lemma_below_nonnegative(before, i);
    assert forall|m: int| 0 <= m < i + 1 && (#[trigger] after[m]).double() implies after[m].remaining() + 4
        * below(after, m) + credit_of(fuel) < 4 * pow2(m as nat) by {
        assert(after[m] == layer_at(before, m));
        assert forall|j: int| 0 <= j < m implies (#[trigger] after[j]).accounted(j as nat) == (
        #[trigger] before[j]).accounted(j as nat) by {
            assert(after[j] == layer_at(before, j));
        }
        lemma_below_agree(after, before, m);
    }
    assert forall|m: int| i + 1 <= m < after.len() && (#[trigger] after[m]).double() implies after[m].remaining()
        + 4 * below(after, m) + 0 < 4 * pow2(m as nat) by {
        if m == i + 1 {
            assert(below(after, i + 1) == below(before, i));
            assert(before[i].remaining() + 4 * below(before, i) + 0 < 4 * pow2(i as nat));
            assert(before[i].fits(i as nat));
            assert(pow2((i + 1) as nat) == 2 * pow2(i as nat));
            if i + 1 < before.len() {
                assert(before[i + 1].fits((i + 1) as nat));
            }
            lemma_remaining_nonnegative(before[i], i as nat);
            lemma_remaining_nonnegative(after[i + 1], (i + 1) as nat);
        } else {
            assert(after[m] == layer_at(before, m));
        }
    }
}

/// A layer to which enough fuel was applied holds no two batches.
pub(crate) proof fn lemma_no_double_low(layers: Seq<MergeState>, k: int, credit: int, m: int)
    requires
        fitting(layers),
        fueled(layers, 0, layers.len() as int, credit),
        0 <= k,
        credit >= 8 * pow2(k as nat),
        0 <= m <= k + 1,
    ensures
        !layer_at(layers, m).double(),
{
    if m < layers.len() && layers[m].double() {
        assert(layers[m].fits(m as nat));
        lemma_remaining_nonnegative(layers[m], m as nat);
        lemma_below_nonnegative(layers, m);
        lemma_pow2_monotone(m as nat, (k + 1) as nat);
        assert(pow2((k + 1) as nat) == 2 * pow2(k as nat));
        assert(layers[m].remaining() + 4 * below(layers, m) + credit < 4 * pow2(m as nat));
    }
}

/// Putting a batch into layer `k` above vacant layers: where the layers
/// from `k` on were chained to the lower frontier of the batch, and the
/// batch ends at `end`, all layers are chained to `end`.
pub(crate) proof fn lemma_chain_placed(
    before: Seq<MergeState>,
    after: Seq<MergeState>,
    k: int,
    x: Option<Batch>,
    frontier: Option<Vec<u64>>,
    link: Seq<u64>,
    end: Seq<u64>,
)
    requires
        0 <= k < after.len(),
        before.len() <= after.len(),
        chained(before, k, before.len() as int, link),
        forall|j: int| 0 <= j < k ==> (#[trigger] after[j]).span() is None,
        forall|j: int| k < j < after.len() ==> #[trigger] after[j] == layer_at(before, j),
        placed(after[k], layer_at(before, k), x, frontier),
        x is Some ==> x->0@.lower == link && x->0@.upper == end,
        x is None ==> link == end,
    ensures
        chained(after, 0, after.len() as int, end),
        start(after, 0, k, end) == end,
{
    lemma_start_vacant(after, 0, k, end);
    let old_k = layer_at(before, k);
    if k < before.len() && before[k].span() is Some {
        assert(span_upper(before[k].span()) == start(before, k, k, link));
    }
    assert(start(after, 0, k + 1, end) == match after[k].span() {
        Some((lower, _)) => lower,
        None => start(after, 0, k, end),
    });
    if k < before.len() {
        assert(start(before, k, k + 1, link) == match before[k].span() {
            Some((lower, _)) => lower,
            None => start(before, k, k, link),
        });
    }
    assert forall|j: int| 0 <= j < after.len() && (#[trigger] after[j]).span() is Some implies span_upper(
        after[j].span(),
    ) == start(after, 0, j, end) by {
        if j == k {
        } else if j > k {
            assert(after[j] == layer_at(before, j));
            assert(j < before.len());
            assert(span_upper(before[j].span()) == start(before, k, j, link));
            assert forall|i: int| k + 1 <= i < j implies (#[trigger] after[i]).span() == (
            #[trigger] before[i]).span() by {
                assert(after[i] == layer_at(before, i));
            }
            lemma_start_compose(after, 0, k + 1, j, end);
            lemma_start_compose(before, k, k + 1, j, link);
            lemma_start_agree(after, before, k + 1, j, start(after, 0, k + 1, end));
        }
    }
}

/// Emptying the layers below `from` leaves the merges above with more to
/// spare: four times what was accounted below `from`.
pub(crate) proof fn lemma_vacated(before: Seq<MergeState>, after: Seq<MergeState>, from: int, credit: int)
    requires
        0 <= from <= before.len(),
        after.len() == before.len(),
        forall|j: int| from <= j < before.len() ==> #[trigger] after[j] == before[j],
        vacant_below(after, from),
        fueled(before, from, before.len() as int, credit),
    ensures
        fueled(after, from, after.len() as int, credit + 4 * below(before, from)),
        below(after, after.len() as int) == below(before, before.len() as int) - below(before, from),
        below(after, from) == 0,
{
    lemma_below_vacant(after, from);
    assert forall|m: int| from <= m <= before.len() implies below(after, m) == below(before, m) - below(
        before,
        from,
    ) by {
        assert forall|j: int| from <= j < m implies (#[trigger] before[j]).accounted(j as nat) == (
        #[trigger] after[j]).accounted(j as nat) by {
            assert(after[j] == before[j]);
        }
        lemma_below_shift(before, after, from, m);
    }
    assert forall|m: int| from <= m < after.len() && (#[trigger] after[m]).double() implies after[m].remaining()
        + 4 * below(after, m) + (credit + 4 * below(before, from)) < 4 * pow2(m as nat) by {
        assert(after[m] == before[m]);
        assert(before[m].remaining() + 4 * below(before, m) + credit < 4 * pow2(m as nat));
    }
}

/// Putting a batch into layer `k` above vacant layers adds `2^k` to what is
/// accounted, which the merges above must have to spare.
pub(crate) proof fn lemma_placed_numeric(
    before: Seq<MergeState>,
    after: Seq<MergeState>,
    k: int,
    x: Option<Batch>,
    frontier: Option<Vec<u64>>,
    credit: int,
)
    requires
        0 <= k,
        after.len() == (if before.len() > k {
            before.len() as int
        } else {
            k + 1
        }),
        fitting(before),
        vacant_below(before, if before.len() > k {
            k
        } else {
            before.len() as int
        }),
        !layer_at(before, k).double(),
        fueled(before, k + 1, before.len() as int, credit + 4 * pow2(k as nat)),
        forall|j: int| 0 <= j < after.len() && j != k ==> #[trigger] after[j] == layer_at(before, j),
        placed(after[k], layer_at(before, k), x, frontier),
        batch_len(x) <= pow2(k as nat),
    ensures
        fitting(after),
        vacant_below(after, k),
        fueled(after, 0, k, credit),
        fueled(after, k + 1, after.len() as int, credit),
        below(after, after.len() as int) == below(before, before.len() as int) + pow2(k as nat),
        after[k].double() ==> after[k].remaining() <= layer_at(before, k).spec_len() + batch_len(x),
        below(after, k) == 0,
{
    let low = if before.len() > k {
        k
    } else {
        before.len() as int
    };
    assert forall|j: int| 0 <= j < k implies (#[trigger] after[j]).vacant() by {
        assert(after[j] == layer_at(before, j));
        if j < before.len() {
            assert(before[j].vacant());
        }
    }
    lemma_below_vacant(after, k);
    lemma_below_vacant(before, low);
    assert forall|j: int| 0 <= j < after.len() implies (#[trigger] after[j]).fits(j as nat) by {
        if j == k {
            if k < before.len() {
                assert(before[k].fits(k as nat));
            }
        } else {
            assert(after[j] == layer_at(before, j));
            if j < before.len() {
                assert(before[j].fits(j as nat));
            }
        }
    }
    assert(after[k].accounted(k as nat) == layer_at(before, k).accounted(k as nat) + pow2(k as nat));
    assert(below(after, k + 1) == after[k].accounted(k as nat));
    if before.len() > k {
        assert(below(before, k + 1) == before[k].accounted(k as nat));
        assert forall|m: int| k + 1 <= m <= before.len() implies below(after, m) == below(before, m) + pow2(
            k as nat,
        ) by {
            assert forall|j: int| k + 1 <= j < m implies (#[trigger] before[j]).accounted(j as nat) == (
            #[trigger] after[j]).accounted(j as nat) by {
                assert(after[j] == layer_at(before, j));
            }
            lemma_below_shift(before, after, k + 1, m);
        }
        assert forall|m: int| k + 1 <= m < after.len() && (#[trigger] after[m]).double() implies after[m].remaining()
            + 4 * below(after, m) + credit < 4 * pow2(m as nat) by {
            assert(after[m] == layer_at(before, m));
            assert(before[m].remaining() + 4 * below(before, m) + (credit + 4 * pow2(k as nat)) < 4 * pow2(
                m as nat,
            ));
        }
    }
}

/// Moving the one batch of the highest layer into the vacant layer below
/// keeps the layers in order.
pub(crate) proof fn lemma_tidied(before: Seq<MergeState>, after: Seq<MergeState>, end: Seq<u64>)
    requires
        before.len() >= 2,
        fitting(before),
        chained(before, 0, before.len() as int, end),
        fueled(before, 0, before.len() as int, 0),
        before[before.len() - 1].single(),
        before[before.len() - 2].vacant(),
        before[before.len() - 1].spec_len() <= pow2((before.len() - 2) as nat),
        after.len() == before.len() - 1,
        forall|j: int| 0 <= j < before.len() - 2 ==> #[trigger] after[j] == before[j],
        after[before.len() - 2] == before[before.len() - 1],
    ensures
        fitting(after),
        chained(after, 0, after.len() as int, end),
        fueled(after, 0, after.len() as int, 0),
        below(after, after.len() as int) <= below(before, before.len() as int),
{
    let top = before.len() - 1;
    assert forall|j: int| 0 <= j < top - 1 implies (#[trigger] after[j]).accounted(j as nat) == (
    #[trigger] before[j]).accounted(j as nat) && after[j].span() == before[j].span() by {
        assert(after[j] == before[j]);
    }
    assert forall|m: int| 0 <= m <= top - 1 implies below(after, m) == below(before, m) by {
        assert forall|j: int| 0 <= j < m implies (#[trigger] after[j]).accounted(j as nat) == (
        #[trigger] before[j]).accounted(j as nat) by {}
        lemma_below_agree(after, before, m);
    }
    lemma_pow2_positive((top - 1) as nat);
    assert(pow2(top as nat) == 2 * pow2((top - 1) as nat));
    assert(below(before, top + 1) == below(before, top) + before[top].accounted(top as nat));
    assert(below(before, top) == below(before, top - 1) + before[top - 1].accounted((top - 1) as nat));
    assert(below(after, top) == below(after, top - 1) + after[top - 1].accounted((top - 1) as nat));
    assert forall|j: int| 0 <= j < after.len() implies (#[trigger] after[j]).fits(j as nat) by {
        if j < top - 1 {
            assert(after[j] == before[j]);
            assert(before[j].fits(j as nat));
        }
    }
    assert forall|j: int| 0 <= j < after.len() && (#[trigger] after[j]).span() is Some implies span_upper(
        after[j].span(),
    ) == start(after, 0, j, end) by {
        assert forall|i: int| 0 <= i < j implies (#[trigger] after[i]).span() == (#[trigger] before[i]).span() by {}
        lemma_start_agree(after, before, 0, j, end);
        if j == top - 1 {
            assert(span_upper(before[top].span()) == start(before, 0, top, end));
            assert(start(before, 0, top, end) == start(before, 0, top - 1, end));
        } else {
            assert(after[j] == before[j]);
        }
    }
    assert forall|m: int| 0 <= m < after.len() && (#[trigger] after[m]).double() implies after[m].remaining() + 4
        * below(after, m) + 0 < 4 * pow2(m as nat) by {
        assert(m < top - 1);
        assert(after[m] == before[m]);
    }
}

/// The highest layer stays where it is: it does not hold one batch that
/// is small enough for the layer below while that layer is vacant.
pub(crate) open spec fn resting(layers: Seq<MergeState>) -> bool {
    let top = layers.len() - 1;
    !(layers[top].single() && ceil_log2_spec(layers[top].spec_len() as nat) < top && top >= 1 && layers[top
        - 1].vacant())
}

/// `after` is `before` with what the highest layer holds moved down, over
/// vacant layers only, to where it rests. What does not hold one batch is
/// not moved.
pub(crate) open spec fn tidied(before: Seq<MergeState>, after: Seq<MergeState>) -> bool {
    let top = before.len() - 1;
    let to = after.len() - 1;
    &&& 1 <= after.len() <= before.len()
    &&& forall|i: int| 0 <= i < to ==> #[trigger] after[i] == before[i]
    &&& after[to] == before[top]
    &&& forall|i: int| to <= i < top ==> (#[trigger] before[i]).vacant()
    &&& !before[top].single() ==> after.len() == before.len()
    &&& after.len() < before.len() ==> ceil_log2_spec(before[top].spec_len() as nat) <= to
    &&& resting(after)
}

/// What fuel makes of a layer that holds two batches, once what a finished
/// merge came to has moved up: a merge that was complete, or had less to
/// read than there was fuel, has left the layer vacant; any other merge is
/// still there, with the same batches and frontier, and has read as many
/// updates as there was fuel.
pub(crate) open spec fn after_fuel(before: MergeState, after: MergeState, fuel: int) -> bool {
    if before.complete_merge() || (fuel > 0 && before.remaining() < fuel) {
        after.vacant()
    } else {
        &&& after.double()
        &&& !after.complete_merge()
        &&& after->Double_0.parts() == before->Double_0.parts()
        &&& after.remaining() == before.remaining() - credit_of(fuel)
    }
}

/// Every layer below `to` that held two batches is what fuel makes of it.
#[verifier::opaque]
pub(crate) open spec fn fuel_applied(before: Seq<MergeState>, after: Seq<MergeState>, fuel: int, to: int) -> bool {
    forall|m: int|
        0 <= m < to && m < before.len() && (#[trigger] before[m]).double() ==> m < after.len() && after_fuel(
            before[m],
            after[m],
            fuel,
        )
}

/// No layer below `to` holds a complete merge.
#[verifier::opaque]
pub(crate) open spec fn none_complete(layers: Seq<MergeState>, to: int) -> bool {
    forall|m: int| 0 <= m < to && m < layers.len() ==> !(#[trigger] layers[m]).complete_merge()
}

/// Every layer from `from` on that held two batches is as it was.
#[verifier::opaque]
pub(crate) open spec fn merges_untouched(before: Seq<MergeState>, after: Seq<MergeState>, from: int) -> bool {
    forall|m: int|
        from <= m < before.len() && (#[trigger] before[m]).double() ==> m < after.len() && after[m] == before[m]
}

/// The layer `above` holds, alone, what the merge in progress in the layer
/// `merge` comes to.
pub(crate) open spec fn raised(merge: MergeState, above: MergeState) -> bool {
    &&& above.single()
    &&& above->Single_0 is Some
    &&& result_of(merge, above->Single_0->0)
}

/// Every merge in progress below `to` that had less to read than there was
/// fuel, under a vacant layer, has left what it came to alone in the layer
/// above.
#[verifier::opaque]
pub(crate) open spec fn moved_up(before: Seq<MergeState>, after: Seq<MergeState>, fuel: int, to: int) -> bool {
    forall|m: int|
        0 <= m < to && m < before.len() && (#[trigger] before[m]).double() && !before[m].complete_merge()
            && before[m].remaining() < fuel && layer_at(before, m + 1).vacant() ==> m + 1 < after.len() && raised(
            before[m],
            after[m + 1],
        )
}

/// Every layer above `from` is as it was.
#[verifier::opaque]
pub(crate) open spec fn above_untouched(before: Seq<MergeState>, after: Seq<MergeState>, from: int) -> bool {
    forall|m: int| from < m < before.len() ==> m < after.len() && #[trigger] after[m] == before[m]
}

/// Before any layer has had its fuel, no merge has moved up.
pub(crate) proof fn lemma_moved_start(first: Seq<MergeState>, fuel: int)
    ensures
        moved_up(first, first, fuel, 0),
        above_untouched(first, first, 0),
{
    reveal(moved_up);
    reveal(above_untouched);
}

/// One layer more has had its fuel: where its merge was finished under a
/// vacant layer, what the merge came to stands alone in the layer above,
/// and stays there.
pub(crate) proof fn lemma_moved_step(
    first: Seq<MergeState>,
    before: Seq<MergeState>,
    done: MergeState,
    now: Seq<MergeState>,
    index: int,
    fuel: int,
    frontier: Option<Vec<u64>>,
)
    requires
        0 <= index < before.len(),
        before.len() == first.len(),
        now.len() >= before.len(),
        moved_up(first, before, fuel, index),
        above_untouched(first, before, index),
        merges_untouched(first, before, index),
        worked(before[index], done, fuel),
        forall|m: int| 0 <= m < before.len() && m != index && m != index + 1 ==> #[trigger] now[m] == before[m],
        done.complete_merge() ==> index + 1 < now.len() && placed(
            now[index + 1],
            layer_at(before, index + 1),
            done->Double_0.outcome(),
            frontier,
        ),
        !done.complete_merge() ==> now[index] == done && (index + 1 < before.len() ==> now[index + 1]
            == before[index + 1]),
    ensures
        moved_up(first, now, fuel, index + 1),
        above_untouched(first, now, index + 1),
{
    reveal(moved_up);
    reveal(above_untouched);
    reveal(merges_untouched);
    assert forall|m: int|
        0 <= m < index + 1 && m < first.len() && (#[trigger] first[m]).double() && !first[m].complete_merge()
            && first[m].remaining() < fuel && layer_at(first, m + 1).vacant() implies m + 1 < now.len() && raised(
        first[m],
        now[m + 1],
    ) by {
        if m < index {
            assert(raised(first[m], before[m + 1]));
            if m + 1 == index {
                assert(done == before[index]);
            } else {
                assert(now[m + 1] == before[m + 1]);
            }
        } else {
            assert(before[index] == first[index]);
            if index + 1 < first.len() {
                assert(before[index + 1] == first[index + 1]);
            }
            assert(layer_at(before, index + 1).vacant());
        }
    }
    assert forall|m: int| index + 1 < m < first.len() implies m < now.len() && #[trigger] now[m] == first[m] by {
        assert(before[m] == first[m]);
        assert(now[m] == before[m]);
    }
}


/// No layer up to `j` holds two batches.
pub(crate) open spec fn single_upto(layers: Seq<MergeState>, j: int) -> bool
    decreases j + 1,
{
    if j < 0 {
        true
    } else {
        !layer_at(layers, j).double() && single_upto(layers, j - 1)
    }
}

/// Where no layer up to `j` holds two batches, none up to a lower `i` does.
pub(crate) proof fn lemma_single_upto(layers: Seq<MergeState>, j: int, i: int)
    requires
        single_upto(layers, j),
        0 <= i <= j,
    ensures
        single_upto(layers, i),
        !layer_at(layers, i).double(),
    decreases j,
{
    if i < j {
        lemma_single_upto(layers, j - 1, i);
    }
}

/// Vacant layers under a layer that holds no two batches: no layer up to
/// it holds two batches.
pub(crate) proof fn lemma_single_above_vacant(layers: Seq<MergeState>, j: int)
    requires
        0 <= j < layers.len(),
        vacant_below(layers, j),
        !layers[j].double(),
    ensures
        single_upto(layers, j),
{
    lemma_vacant_single(layers, j - 1);
}

/// Vacant layers hold no two batches.
proof fn lemma_vacant_single(layers: Seq<MergeState>, j: int)
    requires
        j < layers.len(),
        vacant_below(layers, j + 1),
    ensures
        single_upto(layers, j),
    decreases j + 1,
{
    if j >= 0 {
        assert(layers[j].vacant());
        lemma_vacant_single(layers, j - 1);
    }
}

/// Where no layer up to `j` holds two batches, that is so of each.
pub(crate) proof fn lemma_single_all(layers: Seq<MergeState>, j: int)
    requires
        j < layers.len(),
        forall|i: int| 0 <= i <= j ==> !(#[trigger] layers[i]).double(),
    ensures
        single_upto(layers, j),
    decreases j + 1,
{
    if j >= 0 {
        assert(!layers[j].double());
        lemma_single_all(layers, j - 1);
    }
}

/// Every layer with no two batches in it or below it is as it was.
#[verifier::opaque]
pub(crate) open spec fn low_untouched(before: Seq<MergeState>, after: Seq<MergeState>) -> bool {
    forall|j: int| 0 <= j < before.len() && single_upto(before, j) ==> j < after.len() && #[trigger] after[j] == before[j]
}

/// Before any layer has had its fuel, nothing has changed.
pub(crate) proof fn lemma_low_start(first: Seq<MergeState>)
    ensures
        low_untouched(first, first),
{
    reveal(low_untouched);
}

/// Fuel for one layer more leaves the layers alone that have no two
/// batches in them or below them.
pub(crate) proof fn lemma_low_step(
    first: Seq<MergeState>,
    before: Seq<MergeState>,
    done: MergeState,
    now: Seq<MergeState>,
    index: int,
    fuel: int,
)
    requires
        0 <= index < before.len(),
        before.len() == first.len(),
        now.len() >= before.len(),
        low_untouched(first, before),
        worked(before[index], done, fuel),
        forall|m: int| 0 <= m < before.len() && m != index && m != index + 1 ==> #[trigger] now[m] == before[m],
        !done.complete_merge() ==> now[index] == done && (index + 1 < before.len() ==> now[index + 1]
            == before[index + 1]),
    ensures
        low_untouched(first, now),
{
    reveal(low_untouched);
    assert forall|j: int| 0 <= j < first.len() && single_upto(first, j) implies j < now.len() && #[trigger] now[j]
        == first[j] by {
        assert(before[j] == first[j]);
        if j == index {
        } else if j == index + 1 {
            lemma_single_upto(first, j, index);
            assert(before[index] == first[index]);
        } else {
            assert(now[j] == before[j]);
        }
    }
}

/// The index of the lowest layer from `m` on that is not vacant; the number
/// of layers where all are vacant.
pub(crate) open spec fn first_occupied(layers: Seq<MergeState>, m: int) -> int
    decreases layers.len() - m,
{
    if m < 0 || m >= layers.len() {
        layers.len() as int
    } else if !layers[m].vacant() {
        m
    } else {
        first_occupied(layers, m + 1)
    }
}

/// The layers from `m` up to the first that is not vacant are vacant.
pub(crate) proof fn lemma_first_occupied(layers: Seq<MergeState>, m: int)
    requires
        0 <= m <= layers.len(),
    ensures
        m <= first_occupied(layers, m) <= layers.len(),
        forall|i: int| m <= i < first_occupied(layers, m) ==> (#[trigger] layers[i]).vacant(),
        first_occupied(layers, m) < layers.len() ==> !layers[first_occupied(layers, m)].vacant(),
    decreases layers.len() - m,
{
    if m < layers.len() && layers[m].vacant() {
        lemma_first_occupied(layers, m + 1);
    }
}

/// A layer that is not vacant above vacant layers is the first that is
/// not vacant.
pub(crate) proof fn lemma_first_occupied_at(layers: Seq<MergeState>, m: int, j: int)
    requires
        0 <= m <= j < layers.len(),
        forall|i: int| m <= i < j ==> (#[trigger] layers[i]).vacant(),
        !layers[j].vacant(),
    ensures
        first_occupied(layers, m) == j,
    decreases j - m,
{
    if m < j {
        assert(layers[m].vacant());
        lemma_first_occupied_at(layers, m + 1, j);
    }
}

/// What introducing a batch at layer `k` comes to: fuel was applied to the
/// layers `origin`, the layers below `k` were rolled up, the batch was put
/// into layer `k`, and the highest layer was tidied. The batch then stands
/// in the lowest layer that is not vacant, which is layer `k` unless
/// tidying moved it down, and every merge that had more to read than there
/// was fuel has read that much.
pub(crate) proof fn lemma_introduced(
    origin: Seq<MergeState>,
    paid: Seq<MergeState>,
    rolled: Seq<MergeState>,
    put: Seq<MergeState>,
    done: Seq<MergeState>,
    k: int,
    fuel: int,
)
    requires
        0 <= k,
        fuel >= 8 * pow2(k as nat),
        fuel_applied(origin, paid, fuel, origin.len() as int),
        fitting(paid),
        fueled(paid, 0, paid.len() as int, fuel),
        rolled.len() >= paid.len(),
        forall|j: int| k + 1 < j < rolled.len() ==> #[trigger] rolled[j] == layer_at(paid, j),
        k < put.len(),
        put.len() >= rolled.len(),
        forall|j: int| 0 <= j < put.len() && j != k ==> #[trigger] put[j] == layer_at(rolled, j),
        vacant_below(put, k),
        !put[k].vacant(),
        tidied(put, done),
    ensures
        first_occupied(done, 0) <= k,
        first_occupied(done, 0) < done.len(),
        first_occupied(done, 0) == (if done.len() == first_occupied(done, 0) + 1 && done[first_occupied(
            done,
            0,
        )].single() && ceil_log2_spec(done[first_occupied(done, 0)].spec_len() as nat) < k {
            ceil_log2_spec(done[first_occupied(done, 0)].spec_len() as nat) as int
        } else {
            k
        }),
        done[first_occupied(done, 0)] == put[k],
        vacant_below(done, first_occupied(done, 0)),
        forall|m: int|
            k + 1 < m < origin.len() && (#[trigger] origin[m]).double() ==> if origin[m].complete_merge()
                || origin[m].remaining() < fuel {
                m >= done.len() || !done[m].double()
            } else {
                m < done.len() && after_fuel(origin[m], done[m], fuel)
            },
        forall|m: int|
            0 <= m <= k + 1 && m < origin.len() && (#[trigger] origin[m]).double() ==> origin[m].complete_merge()
                || origin[m].remaining() < fuel,
{
    reveal(fuel_applied);
    lemma_pow2_positive(k as nat);
    let top = put.len() - 1;
    let to = done.len() - 1;
    // Where the batch stands.
    let j = if k < to {
        k
    } else {
        to
    };
    if k < to {
        assert(done[k] == put[k]);
    } else {
        if k < top {
            assert(put[k].vacant());
        }
        assert(k == top);
    }
    assert forall|i: int| 0 <= i < j implies (#[trigger] done[i]).vacant() by {
        assert(done[i] == put[i]);
        assert(put[i].vacant());
    }
    lemma_first_occupied_at(done, 0, j);
    if to < top && k >= to {
        // Tidying moved the batch down to where it rests.
        if to >= 1 {
            assert(done[to - 1] == put[to - 1]);
            assert(put[to - 1].vacant());
        }
    } else if k == top && k >= 1 {
        assert(done[k - 1] == put[k - 1]);
        assert(put[k - 1].vacant());
    }
    // What the merges have read.
    assert forall|m: int|
        k + 1 < m < origin.len() && (#[trigger] origin[m]).double() implies if origin[m].complete_merge()
        || origin[m].remaining() < fuel {
        m >= done.len() || !done[m].double()
    } else {
        m < done.len() && after_fuel(origin[m], done[m], fuel)
    } by {
        assert(m < paid.len() && after_fuel(origin[m], paid[m], fuel));
        assert(rolled[m] == layer_at(paid, m));
        assert(put[m] == layer_at(rolled, m));
        if m < top {
            if m < to {
                assert(done[m] == put[m]);
            } else if to < m {
            } else {
                if !put[m].vacant() {
                    assert(put[m].vacant());
                }
            }
        } else {
            if put[top].double() {
                assert(!put[top].single());
            }
        }
    }
    assert forall|m: int|
        0 <= m <= k + 1 && m < origin.len() && (#[trigger] origin[m]).double() implies origin[m].complete_merge()
        || origin[m].remaining() < fuel by {
        assert(m < paid.len() && after_fuel(origin[m], paid[m], fuel));
        lemma_no_double_low(paid, k, fuel, m);
    }
}

/// Before any layer has had its fuel, nothing has changed.
pub(crate) proof fn lemma_fuel_start(first: Seq<MergeState>, fuel: int)
    ensures
        fuel_applied(first, first, fuel, 0),
        merges_untouched(first, first, 0),
        none_complete(first, 0),
{
    reveal(fuel_applied);
    reveal(merges_untouched);
    reveal(none_complete);
}

/// Where no layer that was there holds a complete merge, and a layer that
/// was added holds no two batches, no layer holds a complete merge.
pub(crate) proof fn lemma_none_complete(layers: Seq<MergeState>, length: int)
    requires
        none_complete(layers, length),
        layers.len() == length || (layers.len() == length + 1 && !layers[length].double()),
    ensures
        none_complete(layers, layers.len() as int),
{
    reveal(none_complete);
}

/// One layer more has had its fuel: a merge that had at least `fuel`
/// updates to read has read that many and stays; the merges above are as
/// they were.
pub(crate) proof fn lemma_fuel_step(
    first: Seq<MergeState>,
    before: Seq<MergeState>,
    done: MergeState,
    now: Seq<MergeState>,
    index: int,
    fuel: int,
)
    requires
        0 <= index < before.len(),
        before.len() >= first.len(),
        now.len() >= before.len(),
        fuel_applied(first, before, fuel, index),
        merges_untouched(first, before, index),
        none_complete(before, index),
        before[index].fits(index as nat),
        worked(before[index], done, fuel),
        forall|m: int| 0 <= m < before.len() && m != index && m != index + 1 ==> #[trigger] now[m] == before[m],
        done.complete_merge() ==> now[index].vacant() && !layer_at(before, index + 1).double(),
        !done.complete_merge() ==> now[index] == done && (index + 1 < before.len() ==> now[index + 1]
            == before[index + 1]),
    ensures
        fuel_applied(first, now, fuel, index + 1),
        merges_untouched(first, now, index + 1),
        none_complete(now, index + 1),
{
    reveal(fuel_applied);
    reveal(merges_untouched);
    reveal(none_complete);
    lemma_remaining_nonnegative(before[index], index as nat);
    if index < first.len() && first[index].double() {
        assert(before[index] == first[index]);
    }
    if index + 1 < first.len() && first[index + 1].double() {
        assert(before[index + 1] == first[index + 1]);
    }
    assert forall|m: int| 0 <= m < index + 1 && m < first.len() && (#[trigger] first[m]).double() implies m
        < now.len() && after_fuel(first[m], now[m], fuel) by {
        if m < index {
            assert(after_fuel(first[m], before[m], fuel));
            assert(now[m] == before[m]);
        }
    }
    assert forall|m: int| index + 1 <= m < first.len() && (#[trigger] first[m]).double() implies m < now.len()
        && now[m] == first[m] by {
        assert(before[m] == first[m]);
    }
    assert forall|m: int| 0 <= m < index + 1 && m < now.len() implies !(#[trigger] now[m]).complete_merge() by {
        if m < index {
            assert(now[m] == before[m]);
        }
    }
}

} // verus!
