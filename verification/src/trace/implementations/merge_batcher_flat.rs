//! The merging half of a merge batcher over flat chunks.
//!
//! The batcher keeps its updates as lists of chunks, each list in order.
//! This module merges two such lists into one and splits a list at a
//! frontier into the updates that are ready to leave and those that stay.

use vstd::prelude::*;
use timely::progress::frontier::Antichain;
use crate::antichain::antichain_elements;
use crate::antichain::antichain_insert;
use crate::antichain::antichain_less_equal;
use crate::antichain::inserted;
use crate::antichain::lemma_inserted_covers;
use crate::consolidation::combines;
use crate::lattice::in_advance_of;
use crate::consolidation::consolidated;
use crate::consolidation::contribution;
use crate::consolidation::occurs;
use crate::consolidation::lemma_total_push;
use crate::consolidation::total;
use crate::difference::congruent;
use crate::difference::lemma_plus_congruent;
use crate::difference::plus;
use crate::difference::Semigroup;
use crate::trace::implementations::flat_chunk::Chunk;
use crate::update::key_equal;
use crate::update::key_less;
use crate::update::key_lt;
use crate::update::nonzero;
use crate::update::strictly_sorted;
use crate::update::same_key;
use crate::update::Update;

verus! {

/// The updates of a list of chunks, in the order of the list.
pub open spec fn flatten(chunks: Seq<Chunk>) -> Seq<Update>
    decreases chunks.len(),
{
    if chunks.len() == 0 {
        Seq::empty()
    } else {
        flatten(chunks.drop_last()) + chunks.last()@
    }
}

/// The updates of a list of chunks, the last chunk first.
pub open spec fn flatten_back(chunks: Seq<Chunk>) -> Seq<Update>
    decreases chunks.len(),
{
    if chunks.len() == 0 {
        Seq::empty()
    } else {
        chunks.last()@ + flatten_back(chunks.drop_last())
    }
}

/// No chunk of the list is empty.
pub open spec fn no_empty(chunks: Seq<Chunk>) -> bool {
    forall|i: int| 0 <= i < chunks.len() ==> (#[trigger] chunks[i])@.len() > 0
}

/// Every chunk of the list is empty and is meant to hold at least one
/// update.
pub open spec fn blank(chunks: Seq<Chunk>) -> bool {
    forall|i: int| 0 <= i < chunks.len() ==> (#[trigger] chunks[i])@.len() == 0 && chunks[i].spec_capacity() > 0
}

/// Some update of `s` has the data and time of `u`.
pub open spec fn has_key(s: Seq<Update>, u: Update) -> bool {
    exists|i: int| 0 <= i < s.len() && same_key(#[trigger] s[i], u)
}

/// `o` is made of the first `n1` updates of `a` and the first `n2` of `b`,
/// two runs in strict order, as a merge makes it. What was read of one run
/// comes before what is left of the other. Every update of `o` has data
/// and time of an update of `a` or `b`. An update that was read, and whose
/// data and time no update of the other run has, is in `o` as it was read.
/// Where two updates that share data and time were read and their
/// differences add up to zero, `o` has no update for their data and time.
pub open spec fn traced(o: Seq<Update>, a: Seq<Update>, b: Seq<Update>, n1: int, n2: int) -> bool {
    &&& forall|i: int, j: int| 0 <= i < n1 && n2 <= j < b.len() ==> key_lt(#[trigger] a[i], #[trigger] b[j])
    &&& forall|i: int, j: int| n1 <= i < a.len() && 0 <= j < n2 ==> key_lt(#[trigger] b[j], #[trigger] a[i])
    &&& forall|k: int| 0 <= k < o.len() ==> has_key(a, #[trigger] o[k]) || has_key(b, o[k])
    &&& forall|i: int| 0 <= i < n1 && !has_key(b, #[trigger] a[i]) ==> occurs(o, a[i])
    &&& forall|j: int| 0 <= j < n2 && !has_key(a, #[trigger] b[j]) ==> occurs(o, b[j])
    &&& forall|i: int, j: int|
        0 <= i < n1 && 0 <= j < n2 && same_key(#[trigger] a[i], #[trigger] b[j]) && plus(a[i].diff, b[j].diff)
            == 0 ==> !has_key(o, a[i])
}

/// `out` is the merge of the runs `a` and `b`, which are in strict order:
/// it is in strict order; it holds every update of either run whose data
/// and time the other run does not have, as it came; for data and time
/// that both have, it holds the sum of the differences, unless that is
/// zero; and it holds nothing else.
pub open spec fn merged_runs(out: Seq<Update>, a: Seq<Update>, b: Seq<Update>) -> bool {
    &&& strictly_sorted(out)
    &&& combines(out, a, b)
    &&& traced(out, a, b, a.len() as int, b.len() as int)
}

/// `o` is what a merge of `a` and `b` has written after reading `n1`
/// updates of `a` and `n2` of `b`: it means what these mean together, and
/// it holds no zero difference where the runs hold none. Where the merge
/// is `ordered`, both runs are in strict order, and so is `o`, which comes
/// before everything that is still to be read.
pub open spec fn merged_so_far(
    o: Seq<Update>,
    a: Seq<Update>,
    b: Seq<Update>,
    n1: int,
    n2: int,
    ordered: bool,
) -> bool {
    &&& 0 <= n1 <= a.len()
    &&& 0 <= n2 <= b.len()
    &&& combines(o, a.take(n1), b.take(n2))
    &&& nonzero(a) && nonzero(b) ==> nonzero(o)
    &&& ordered ==> {
        &&& strictly_sorted(a)
        &&& strictly_sorted(b)
        &&& strictly_sorted(o)
        &&& traced(o, a, b, n1, n2)
        &&& forall|i: int, j: int| 0 <= i < o.len() && n1 <= j < a.len() ==> key_lt(#[trigger] o[i], #[trigger] a[j])
        &&& forall|i: int, j: int| 0 <= i < o.len() && n2 <= j < b.len() ==> key_lt(#[trigger] o[i], #[trigger] b[j])
    }
}

/// Appending a chunk to a list appends its updates.
pub proof fn lemma_flatten_push(chunks: Seq<Chunk>, chunk: Chunk)
    ensures
        flatten(chunks.push(chunk)) == flatten(chunks) + chunk@,
{
    assert(chunks.push(chunk).drop_last() =~= chunks);
}

/// What is in a sequence is in the sequence with one update more, and an
/// update with other data or time does not bring data and time in.
proof fn lemma_push_keeps(o: Seq<Update>, u: Update, x: Update)
    ensures
        occurs(o, x) ==> occurs(o.push(u), x),
        occurs(o.push(u), u),
        has_key(o.push(u), u),
        !has_key(o, x) && !same_key(u, x) ==> !has_key(o.push(u), x),
{
    let o2 = o.push(u);
    if occurs(o, x) {
        let i = choose|i: int| 0 <= i < o.len() && #[trigger] o[i] == x;
        assert(o2[i] == x);
    }
    assert(o2[o.len() as int] == u);
    if !has_key(o, x) && !same_key(u, x) {
        if has_key(o2, x) {
            let i = choose|i: int| 0 <= i < o2.len() && same_key(#[trigger] o2[i], x);
            if i < o.len() {
                assert(same_key(o[i], x));
            }
        }
    }
}

/// Reading the next update of the first run keeps the trace.
proof fn lemma_traced_first(o: Seq<Update>, a: Seq<Update>, b: Seq<Update>, n1: int, n2: int)
    requires
        strictly_sorted(a),
        strictly_sorted(b),
        traced(o, a, b, n1, n2),
        0 <= n1 < a.len(),
        0 <= n2 <= b.len(),
        n2 == b.len() || key_lt(a[n1], b[n2]),
    ensures
        traced(o.push(a[n1]), a, b, n1 + 1, n2),
{
    let u = a[n1];
    let o2 = o.push(u);
    assert forall|i: int, j: int| 0 <= i < n1 + 1 && n2 <= j < b.len() implies key_lt(
        #[trigger] a[i],
        #[trigger] b[j],
    ) by {
        if i == n1 && n2 < j {
            assert(key_lt(b[n2], b[j]));
        }
    }
    assert forall|k: int| 0 <= k < o2.len() implies has_key(a, #[trigger] o2[k]) || has_key(b, o2[k]) by {
        if k < o.len() {
            assert(o2[k] == o[k]);
        } else {
            assert(same_key(a[n1], u));
        }
    }
    assert forall|i: int| 0 <= i < n1 + 1 && !has_key(b, #[trigger] a[i]) implies occurs(o2, a[i]) by {
        lemma_push_keeps(o, u, a[i]);
    }
    assert forall|j: int| 0 <= j < n2 && !has_key(a, #[trigger] b[j]) implies occurs(o2, b[j]) by {
        lemma_push_keeps(o, u, b[j]);
    }
    assert forall|i: int, j: int|
        0 <= i < n1 + 1 && 0 <= j < n2 && same_key(#[trigger] a[i], #[trigger] b[j]) && plus(a[i].diff, b[j].diff)
            == 0 implies !has_key(o2, a[i]) by {
        if i == n1 {
            assert(key_lt(b[j], a[n1]));
        } else {
            assert(key_lt(a[i], a[n1]));
            lemma_push_keeps(o, u, a[i]);
        }
    }
}

/// Reading the next update of the second run keeps the trace.
proof fn lemma_traced_second(o: Seq<Update>, a: Seq<Update>, b: Seq<Update>, n1: int, n2: int)
    requires
        strictly_sorted(a),
        strictly_sorted(b),
        traced(o, a, b, n1, n2),
        0 <= n1 <= a.len(),
        0 <= n2 < b.len(),
        n1 == a.len() || key_lt(b[n2], a[n1]),
    ensures
        traced(o.push(b[n2]), a, b, n1, n2 + 1),
{
    let u = b[n2];
    let o2 = o.push(u);
    assert forall|i: int, j: int| n1 <= i < a.len() && 0 <= j < n2 + 1 implies key_lt(
        #[trigger] b[j],
        #[trigger] a[i],
    ) by {
        if j == n2 && n1 < i {
            assert(key_lt(a[n1], a[i]));
        }
    }
    assert forall|k: int| 0 <= k < o2.len() implies has_key(a, #[trigger] o2[k]) || has_key(b, o2[k]) by {
        if k < o.len() {
            assert(o2[k] == o[k]);
        } else {
            assert(same_key(b[n2], u));
        }
    }
    assert forall|i: int| 0 <= i < n1 && !has_key(b, #[trigger] a[i]) implies occurs(o2, a[i]) by {
        lemma_push_keeps(o, u, a[i]);
    }
    assert forall|j: int| 0 <= j < n2 + 1 && !has_key(a, #[trigger] b[j]) implies occurs(o2, b[j]) by {
        lemma_push_keeps(o, u, b[j]);
    }
    assert forall|i: int, j: int|
        0 <= i < n1 && 0 <= j < n2 + 1 && same_key(#[trigger] a[i], #[trigger] b[j]) && plus(a[i].diff, b[j].diff)
            == 0 implies !has_key(o2, a[i]) by {
        if j == n2 {
            assert(key_lt(a[i], b[n2]));
        } else {
            assert(key_lt(a[i], b[n2]));
            lemma_push_keeps(o, u, a[i]);
        }
    }
}

/// Reading the next updates of both runs, which share data and time, keeps
/// the trace.
proof fn lemma_traced_both(o: Seq<Update>, a: Seq<Update>, b: Seq<Update>, n1: int, n2: int, u: Update)
    requires
        strictly_sorted(a),
        strictly_sorted(b),
        traced(o, a, b, n1, n2),
        0 <= n1 < a.len(),
        0 <= n2 < b.len(),
        same_key(a[n1], b[n2]),
        same_key(u, a[n1]),
        u.diff == plus(a[n1].diff, b[n2].diff),
        forall|i: int| 0 <= i < o.len() ==> key_lt(#[trigger] o[i], a[n1]),
    ensures
        traced(if u.diff != 0 {
            o.push(u)
        } else {
            o
        }, a, b, n1 + 1, n2 + 1),
{
    let o2 = if u.diff != 0 {
        o.push(u)
    } else {
        o
    };
    assert forall|i: int, j: int| 0 <= i < n1 + 1 && n2 + 1 <= j < b.len() implies key_lt(
        #[trigger] a[i],
        #[trigger] b[j],
    ) by {
        if i == n1 {
            assert(key_lt(b[n2], b[j]));
        }
    }
    assert forall|i: int, j: int| n1 + 1 <= i < a.len() && 0 <= j < n2 + 1 implies key_lt(
        #[trigger] b[j],
        #[trigger] a[i],
    ) by {
        if j == n2 {
            assert(key_lt(a[n1], a[i]));
        }
    }
    assert forall|k: int| 0 <= k < o2.len() implies has_key(a, #[trigger] o2[k]) || has_key(b, o2[k]) by {
        if k < o.len() {
            assert(o2[k] == o[k]);
        } else {
            assert(same_key(a[n1], u));
        }
    }
    assert forall|i: int| 0 <= i < n1 + 1 && !has_key(b, #[trigger] a[i]) implies occurs(o2, a[i]) by {
        if i == n1 {
            assert(same_key(b[n2], a[n1]));
        } else {
            lemma_push_keeps(o, u, a[i]);
        }
    }
    assert forall|j: int| 0 <= j < n2 + 1 && !has_key(a, #[trigger] b[j]) implies occurs(o2, b[j]) by {
        if j == n2 {
            assert(same_key(a[n1], b[n2]));
        } else {
            lemma_push_keeps(o, u, b[j]);
        }
    }
    assert forall|i: int, j: int|
        0 <= i < n1 + 1 && 0 <= j < n2 + 1 && same_key(#[trigger] a[i], #[trigger] b[j]) && plus(
            a[i].diff,
            b[j].diff,
        ) == 0 implies !has_key(o2, a[i]) by {
        if i == n1 && j == n2 {
            if has_key(o, a[n1]) {
                let k = choose|k: int| 0 <= k < o.len() && same_key(#[trigger] o[k], a[n1]);
                assert(key_lt(o[k], a[n1]));
            }
        } else if i == n1 {
            assert(key_lt(b[j], a[n1]));
        } else if j == n2 {
            assert(key_lt(a[i], b[n2]));
        } else {
            assert(key_lt(a[i], a[n1]));
            lemma_push_keeps(o, u, a[i]);
        }
    }
}

/// A merge that has read nothing has written nothing.
pub proof fn lemma_merge_start(a: Seq<Update>, b: Seq<Update>, ordered: bool)
    requires
        ordered ==> strictly_sorted(a) && strictly_sorted(b),
    ensures
        merged_so_far(Seq::empty(), a, b, 0, 0, ordered),
{
    assert(a.take(0) =~= Seq::<Update>::empty());
    assert(b.take(0) =~= Seq::<Update>::empty());
    assert forall|d: u64, t: u64| total(Seq::<Update>::empty(), d, t) == 0 by {}
}

/// Writing the next update of the first run, where it comes before what is
/// left of the second.
pub proof fn lemma_take_first(o: Seq<Update>, a: Seq<Update>, b: Seq<Update>, n1: int, n2: int, ordered: bool)
    requires
        merged_so_far(o, a, b, n1, n2, ordered),
        n1 < a.len(),
        ordered ==> n2 == b.len() || key_lt(a[n1], b[n2]),
    ensures
        merged_so_far(o.push(a[n1]), a, b, n1 + 1, n2, ordered),
{
    let u = a[n1];
    let o2 = o.push(u);
    assert(a.take(n1 + 1) =~= a.take(n1).push(u));
    lemma_total_push(a.take(n1), u);
    lemma_total_push(o, u);
    assert forall|d: u64, t: u64|
        #![trigger total(o2, d, t)]
        #![trigger total(a.take(n1 + 1), d, t)]
        #![trigger total(b.take(n2), d, t)]
        congruent(total(o2, d, t), total(a.take(n1 + 1), d, t) + total(b.take(n2), d, t)) by {
        assert(congruent(total(o, d, t), total(a.take(n1), d, t) + total(b.take(n2), d, t)));
    }
    if nonzero(a) && nonzero(b) {
        assert forall|i: int| 0 <= i < o2.len() implies (#[trigger] o2[i]).diff != 0 by {
            if i < o.len() {
                assert(o[i].diff != 0);
            } else {
                assert(a[n1].diff != 0);
            }
        }
    }
    if ordered {
        lemma_traced_first(o, a, b, n1, n2);
        assert forall|i: int, j: int| 0 <= i < j < o2.len() implies key_lt(#[trigger] o2[i], #[trigger] o2[j]) by {
            if j < o.len() {
                assert(key_lt(o[i], o[j]));
            } else {
                assert(key_lt(o[i], a[n1]));
            }
        }
        assert forall|i: int, j: int| 0 <= i < o2.len() && n1 + 1 <= j < a.len() implies key_lt(
            #[trigger] o2[i],
            #[trigger] a[j],
        ) by {
            if i < o.len() {
                assert(key_lt(o[i], a[j]));
            } else {
                assert(key_lt(a[n1], a[j]));
            }
        }
        assert forall|i: int, j: int| 0 <= i < o2.len() && n2 <= j < b.len() implies key_lt(
            #[trigger] o2[i],
            #[trigger] b[j],
        ) by {
            if i < o.len() {
                assert(key_lt(o[i], b[j]));
            } else {
                if n2 < j {
                    assert(key_lt(b[n2], b[j]));
                }
            }
        }
    }
}

/// Writing the next update of the second run, where it comes before what
/// is left of the first.
pub proof fn lemma_take_second(o: Seq<Update>, a: Seq<Update>, b: Seq<Update>, n1: int, n2: int, ordered: bool)
    requires
        merged_so_far(o, a, b, n1, n2, ordered),
        n2 < b.len(),
        ordered ==> n1 == a.len() || key_lt(b[n2], a[n1]),
    ensures
        merged_so_far(o.push(b[n2]), a, b, n1, n2 + 1, ordered),
{
    let u = b[n2];
    let o2 = o.push(u);
    assert(b.take(n2 + 1) =~= b.take(n2).push(u));
    lemma_total_push(b.take(n2), u);
    lemma_total_push(o, u);
    assert forall|d: u64, t: u64|
        #![trigger total(o2, d, t)]
        #![trigger total(a.take(n1), d, t)]
        #![trigger total(b.take(n2 + 1), d, t)]
        congruent(total(o2, d, t), total(a.take(n1), d, t) + total(b.take(n2 + 1), d, t)) by {
        assert(congruent(total(o, d, t), total(a.take(n1), d, t) + total(b.take(n2), d, t)));
    }
    if nonzero(a) && nonzero(b) {
        assert forall|i: int| 0 <= i < o2.len() implies (#[trigger] o2[i]).diff != 0 by {
            if i < o.len() {
                assert(o[i].diff != 0);
            } else {
                assert(b[n2].diff != 0);
            }
        }
    }
    if ordered {
        lemma_traced_second(o, a, b, n1, n2);
        assert forall|i: int, j: int| 0 <= i < j < o2.len() implies key_lt(#[trigger] o2[i], #[trigger] o2[j]) by {
            if j < o.len() {
                assert(key_lt(o[i], o[j]));
            } else {
                assert(key_lt(o[i], b[n2]));
            }
        }
        assert forall|i: int, j: int| 0 <= i < o2.len() && n2 + 1 <= j < b.len() implies key_lt(
            #[trigger] o2[i],
            #[trigger] b[j],
        ) by {
            if i < o.len() {
                assert(key_lt(o[i], b[j]));
            } else {
                assert(key_lt(b[n2], b[j]));
            }
        }
        assert forall|i: int, j: int| 0 <= i < o2.len() && n1 <= j < a.len() implies key_lt(
            #[trigger] o2[i],
            #[trigger] a[j],
        ) by {
            if i < o.len() {
                assert(key_lt(o[i], a[j]));
            } else {
                if n1 < j {
                    assert(key_lt(a[n1], a[j]));
                }
            }
        }
    }
}

/// Writing the sum of the next updates of both runs, which share data and
/// time, unless the sum is zero.
pub proof fn lemma_take_both(o: Seq<Update>, a: Seq<Update>, b: Seq<Update>, n1: int, n2: int, u: Update, ordered: bool)
    requires
        merged_so_far(o, a, b, n1, n2, ordered),
        n1 < a.len(),
        n2 < b.len(),
        same_key(a[n1], b[n2]),
        same_key(u, a[n1]),
        u.diff == plus(a[n1].diff, b[n2].diff),
    ensures
        merged_so_far(
            if u.diff != 0 {
                o.push(u)
            } else {
                o
            },
            a,
            b,
            n1 + 1,
            n2 + 1,
            ordered,
        ),
{
    let o2 = if u.diff != 0 {
        o.push(u)
    } else {
        o
    };
    assert(a.take(n1 + 1) =~= a.take(n1).push(a[n1]));
    assert(b.take(n2 + 1) =~= b.take(n2).push(b[n2]));
    lemma_total_push(a.take(n1), a[n1]);
    lemma_total_push(b.take(n2), b[n2]);
    lemma_total_push(o, u);
    lemma_plus_congruent(a[n1].diff, b[n2].diff);
    assert forall|d: u64, t: u64|
        #![trigger total(o2, d, t)]
        #![trigger total(a.take(n1 + 1), d, t)]
        #![trigger total(b.take(n2 + 1), d, t)]
        congruent(total(o2, d, t), total(a.take(n1 + 1), d, t) + total(b.take(n2 + 1), d, t)) by {
        assert(congruent(total(o, d, t), total(a.take(n1), d, t) + total(b.take(n2), d, t)));
        assert(total(o2, d, t) == total(o, d, t) + contribution(u, d, t));
    }
    if nonzero(a) && nonzero(b) {
        assert forall|i: int| 0 <= i < o2.len() implies (#[trigger] o2[i]).diff != 0 by {
            if i < o.len() {
                assert(o[i].diff != 0);
            }
        }
    }
    if ordered {
        lemma_traced_both(o, a, b, n1, n2, u);
        assert forall|i: int, j: int| 0 <= i < j < o2.len() implies key_lt(#[trigger] o2[i], #[trigger] o2[j]) by {
            if j < o.len() {
                assert(key_lt(o[i], o[j]));
            } else {
                assert(key_lt(o[i], a[n1]));
            }
        }
        assert forall|i: int, j: int| 0 <= i < o2.len() && n1 + 1 <= j < a.len() implies key_lt(
            #[trigger] o2[i],
            #[trigger] a[j],
        ) by {
            if i < o.len() {
                assert(key_lt(o[i], a[j]));
            } else {
                assert(key_lt(a[n1], a[j]));
            }
        }
        assert forall|i: int, j: int| 0 <= i < o2.len() && n2 + 1 <= j < b.len() implies key_lt(
            #[trigger] o2[i],
            #[trigger] b[j],
        ) by {
            if i < o.len() {
                assert(key_lt(o[i], b[j]));
            } else {
                assert(key_lt(b[n2], b[j]));
            }
        }
    }
}

/// Writing the next `k` updates of the first run, where the second has been
/// read to its end.
pub proof fn lemma_take_first_run(o: Seq<Update>, a: Seq<Update>, b: Seq<Update>, n1: int, n2: int, k: int, ordered: bool)
    requires
        merged_so_far(o, a, b, n1, n2, ordered),
        0 <= k,
        n1 + k <= a.len(),
        ordered && k > 0 ==> n2 == b.len(),
    ensures
        merged_so_far(o + a.subrange(n1, n1 + k), a, b, n1 + k, n2, ordered),
    decreases k,
{
    if k == 0 {
        assert(o + a.subrange(n1, n1) =~= o);
    } else {
        lemma_take_first_run(o, a, b, n1, n2, k - 1, ordered);
        lemma_take_first(o + a.subrange(n1, n1 + k - 1), a, b, n1 + k - 1, n2, ordered);
        assert((o + a.subrange(n1, n1 + k - 1)).push(a[n1 + k - 1]) =~= o + a.subrange(n1, n1 + k));
    }
}

/// Writing the next `k` updates of the second run, where the first has been
/// read to its end.
pub proof fn lemma_take_second_run(o: Seq<Update>, a: Seq<Update>, b: Seq<Update>, n1: int, n2: int, k: int, ordered: bool)
    requires
        merged_so_far(o, a, b, n1, n2, ordered),
        0 <= k,
        n2 + k <= b.len(),
        ordered && k > 0 ==> n1 == a.len(),
    ensures
        merged_so_far(o + b.subrange(n2, n2 + k), a, b, n1, n2 + k, ordered),
    decreases k,
{
    if k == 0 {
        assert(o + b.subrange(n2, n2) =~= o);
    } else {
        lemma_take_second_run(o, a, b, n1, n2, k - 1, ordered);
        lemma_take_second(o + b.subrange(n2, n2 + k - 1), a, b, n1, n2 + k - 1, ordered);
        assert((o + b.subrange(n2, n2 + k - 1)).push(b[n2 + k - 1]) =~= o + b.subrange(n2, n2 + k));
    }
}

/// The updates of `s` whose time is in advance of `upper`, in their order.
pub open spec fn kept_updates(s: Seq<Update>, upper: Seq<u64>) -> Seq<Update>
    decreases s.len(),
{
    if s.len() == 0 {
        s
    } else if in_advance_of(upper, s.last().time) {
        kept_updates(s.drop_last(), upper).push(s.last())
    } else {
        kept_updates(s.drop_last(), upper)
    }
}

/// The updates of `s` whose time is not in advance of `upper`, in their
/// order.
pub open spec fn ready_updates(s: Seq<Update>, upper: Seq<u64>) -> Seq<Update>
    decreases s.len(),
{
    if s.len() == 0 {
        s
    } else if in_advance_of(upper, s.last().time) {
        ready_updates(s.drop_last(), upper)
    } else {
        ready_updates(s.drop_last(), upper).push(s.last())
    }
}

/// The elements of an antichain after the time of every update of `s` was
/// put into it, in the order of `s`.
pub open spec fn lower_bound(elements: Seq<u64>, s: Seq<Update>) -> Seq<u64>
    decreases s.len(),
{
    if s.len() == 0 {
        elements
    } else {
        inserted(lower_bound(elements, s.drop_last()), s.last().time)
    }
}

/// The time of every update that was put into an antichain is in advance
/// of it, and so is every time that was in advance of it before.
pub proof fn lemma_lower_bound_covers(elements: Seq<u64>, s: Seq<Update>)
    ensures
        forall|i: int| 0 <= i < s.len() ==> in_advance_of(lower_bound(elements, s), (#[trigger] s[i]).time),
        forall|x: u64| in_advance_of(elements, x) ==> in_advance_of(lower_bound(elements, s), x),
    decreases s.len(),
{
    if s.len() > 0 {
        let front = s.drop_last();
        lemma_lower_bound_covers(elements, front);
        lemma_inserted_covers(lower_bound(elements, front), s.last().time);
        assert forall|i: int| 0 <= i < s.len() implies in_advance_of(
            lower_bound(elements, s),
            (#[trigger] s[i]).time,
        ) by {
            if i < front.len() {
                assert(front[i] == s[i]);
            }
        }
    }
}

/// Splitting keeps what the updates mean: the kept and the ready updates
/// mean together what the whole means.
pub proof fn lemma_split_combines(s: Seq<Update>, upper: Seq<u64>)
    ensures
        combines(s, kept_updates(s, upper), ready_updates(s, upper)),
    decreases s.len(),
{
    if s.len() == 0 {
        assert forall|d: u64, t: u64| total(s, d, t) == 0 by {}
    } else {
        let front = s.drop_last();
        lemma_split_combines(front, upper);
        lemma_total_push(kept_updates(front, upper), s.last());
        lemma_total_push(ready_updates(front, upper), s.last());
        assert forall|d: u64, t: u64|
            #![trigger total(s, d, t)]
            #![trigger total(kept_updates(s, upper), d, t)]
            #![trigger total(ready_updates(s, upper), d, t)]
            congruent(total(s, d, t), total(kept_updates(s, upper), d, t) + total(ready_updates(s, upper), d, t)) by {
            assert(congruent(
                total(front, d, t),
                total(kept_updates(front, upper), d, t) + total(ready_updates(front, upper), d, t),
            ));
        }
    }
}

/// The target size of a chunk, in bytes.
pub const BUFFER_SIZE_BYTES: usize = 8192;

/// The number of items of `size` bytes each that a chunk is meant to hold.
pub open spec fn capacity_for(size: nat) -> nat {
    if size == 0 {
        8192
    } else if size <= 8192 {
        8192nat / size
    } else {
        1
    }
}

/// The number of updates that a chunk made by the merger is meant to hold.
pub open spec fn chunk_capacity_spec() -> nat {
    capacity_for(vstd::layout::size_of::<(u64, u64, i64)>())
}

/// A chunk that is read from its front.
struct FlatStackQueue {
    list: Chunk,
    head: usize,
}

impl FlatStackQueue {
    /// Starts to read `list` at its front.
    fn from(list: Chunk) -> (queue: FlatStackQueue)
        ensures
            queue.list == list,
            queue.head == 0,
    {
        FlatStackQueue { list, head: 0 }
    }

    /// Hands the chunk back.
    fn done(self) -> (list: Chunk)
        ensures
            list == self.list,
    {
        self.list
    }

    /// Has everything been read?
    fn is_empty(&self) -> (r: bool)
        ensures
            r == (self.head >= self.list@.len()),
    {
        self.head >= self.list.len()
    }

    /// The next update, which stays in the queue.
    fn peek(&self) -> (u: Update)
        requires
            self.head < self.list@.len(),
        ensures
            u == self.list@[self.head as int],
    {
        self.list.get(self.head)
    }

    /// The next update, which leaves the queue.
    fn pop(&mut self) -> (u: Update)
        requires
            old(self).head < old(self).list@.len(),
        ensures
            u == old(self).list@[old(self).head as int],
            final(self).list == old(self).list,
            final(self).head == old(self).head + 1,
    {
        // The head is below the length, so the next position exists.
        let len = self.list.len();
        assert(self.head < len);
        self.head = self.head + 1;
        self.list.get(self.head - 1)
    }

    /// The update `offset` places behind the next one.
    fn peek_at(&self, offset: usize) -> (u: Update)
        requires
            self.head + offset < self.list@.len(),
        ensures
            u == self.list@[self.head + offset],
    {
        let len = self.list.len();
        assert(self.head + offset < len);
        self.list.get(self.head + offset)
    }

    /// Passes over the next `consumed` updates.
    fn advance(&mut self, consumed: usize)
        requires
            old(self).head + consumed <= old(self).list@.len(),
        ensures
            final(self).list == old(self).list,
            final(self).head == old(self).head + consumed,
    {
        let len = self.list.len();
        assert(self.head + consumed <= len);
        self.head = self.head + consumed;
    }
}

/// `head` and `rest` are what is left of `run` from `base` on: the chunk
/// being read starts at `base`, and the chunks of `rest` follow it, the last
/// of them first.
spec fn tracks(run: Seq<Update>, base: int, head: FlatStackQueue, rest: Seq<Chunk>) -> bool {
    &&& 0 <= base
    &&& head.head <= head.list@.len()
    &&& base + head.list@.len() + flatten_back(rest).len() == run.len()
    &&& run.subrange(base, base + head.list@.len()) == head.list@
    &&& run.skip(base + head.list@.len()) == flatten_back(rest)
}

/// `written` is what the chunks put out behind the first `out0` and the
/// chunk being filled hold.
spec fn emitted(written: Seq<Update>, output: Seq<Chunk>, out0: int, kept: Seq<Chunk>, result: Chunk) -> bool {
    &&& 0 <= out0 <= output.len()
    &&& output.take(out0) == kept
    &&& written == flatten(output.skip(out0)) + result@
}

/// Putting a chunk that is not empty behind chunks that are not empty.
proof fn lemma_no_empty_push(output: Seq<Chunk>, out0: int, chunk: Chunk)
    requires
        0 <= out0 <= output.len(),
        no_empty(output.skip(out0)),
        chunk@.len() > 0,
    ensures
        no_empty(output.push(chunk).skip(out0)),
{
    assert forall|i: int| 0 <= i < output.push(chunk).skip(out0).len() implies (#[trigger] output.push(chunk).skip(
        out0,
    )[i])@.len() > 0 by {
        if i < output.skip(out0).len() {
            assert(output.push(chunk).skip(out0)[i] == output.skip(out0)[i]);
        }
    }
}

proof fn lemma_emitted_copy(
    written: Seq<Update>,
    output: Seq<Chunk>,
    out0: int,
    kept: Seq<Chunk>,
    result: Chunk,
    after: Chunk,
    u: Update,
)
    requires
        emitted(written, output, out0, kept, result),
        after@ == result@.push(u),
    ensures
        emitted(written.push(u), output, out0, kept, after),
{
    assert(written.push(u) =~= flatten(output.skip(out0)) + after@);
}

proof fn lemma_emitted_run(
    written: Seq<Update>,
    output: Seq<Chunk>,
    out0: int,
    kept: Seq<Chunk>,
    result: Chunk,
    after: Chunk,
    run: Seq<Update>,
)
    requires
        emitted(written, output, out0, kept, result),
        after@ == result@ + run,
    ensures
        emitted(written + run, output, out0, kept, after),
{
    assert(written + run =~= flatten(output.skip(out0)) + after@);
}

proof fn lemma_emitted_flush(
    written: Seq<Update>,
    output: Seq<Chunk>,
    out0: int,
    kept: Seq<Chunk>,
    result: Chunk,
    fresh: Chunk,
)
    requires
        emitted(written, output, out0, kept, result),
        fresh@.len() == 0,
    ensures
        emitted(written, output.push(result), out0, kept, fresh),
{
    assert(output.push(result).skip(out0) =~= output.skip(out0).push(result));
    lemma_flatten_push(output.skip(out0), result);
    assert(output.push(result).take(out0) =~= output.take(out0));
    assert(written =~= flatten(output.push(result).skip(out0)) + fresh@);
}

proof fn lemma_emitted_chunk(
    written: Seq<Update>,
    output: Seq<Chunk>,
    out0: int,
    kept: Seq<Chunk>,
    result: Chunk,
    chunk: Chunk,
)
    requires
        emitted(written, output, out0, kept, result),
        result@.len() == 0,
    ensures
        emitted(written + chunk@, output.push(chunk), out0, kept, result),
{
    assert(output.push(chunk).skip(out0) =~= output.skip(out0).push(chunk));
    lemma_flatten_push(output.skip(out0), chunk);
    assert(output.push(chunk).take(out0) =~= output.take(out0));
    assert(written + chunk@ =~= flatten(output.push(chunk).skip(out0)) + result@);
}

proof fn lemma_tracks_next(
    run: Seq<Update>,
    base: int,
    head: FlatStackQueue,
    rest: Seq<Chunk>,
    next: FlatStackQueue,
    left: Seq<Chunk>,
)
    requires
        tracks(run, base, head, rest),
        next.head == 0,
        next.list@ + flatten_back(left) == flatten_back(rest),
    ensures
        tracks(run, base + head.list@.len(), next, left),
{
    let start = base + head.list@.len();
    assert(run.subrange(start, start + next.list@.len()) =~= next.list@) by {
        assert forall|i: int| 0 <= i < next.list@.len() implies #[trigger] run.subrange(
            start,
            start + next.list@.len(),
        )[i] == next.list@[i] by {
            assert(run.skip(start)[i] == flatten_back(rest)[i]);
            assert((next.list@ + flatten_back(left))[i] == next.list@[i]);
        }
    }
    assert(run.skip(start + next.list@.len()) =~= flatten_back(left)) by {
        assert forall|i: int| 0 <= i < flatten_back(left).len() implies #[trigger] run.skip(
            start + next.list@.len(),
        )[i] == flatten_back(left)[i] by {
            assert(run.skip(start)[next.list@.len() + i] == flatten_back(rest)[next.list@.len() + i]);
            assert((next.list@ + flatten_back(left))[next.list@.len() + i] == flatten_back(left)[i]);
        }
    }
}

/// The merge has read `n1` updates of `a` and `n2` of `b`, and `written` is
/// what it has put out and what the chunk being filled holds.
spec fn writing(
    a: Seq<Update>,
    b: Seq<Update>,
    ordered: bool,
    out0: int,
    kept: Seq<Chunk>,
    written: Seq<Update>,
    output: Seq<Chunk>,
    result: Chunk,
    n1: int,
    n2: int,
    stash: Seq<Chunk>,
) -> bool {
    &&& blank(stash)
    &&& result.spec_capacity() > 0
    &&& emitted(written, output, out0, kept, result)
    &&& merged_so_far(written, a, b, n1, n2, ordered)
}

proof fn lemma_tracks_head(run: Seq<Update>, base: int, head: FlatStackQueue, rest: Seq<Chunk>, k: int)
    requires
        tracks(run, base, head, rest),
        0 <= k,
        head.head + k <= head.list@.len(),
    ensures
        base + head.head + k <= run.len(),
        head.head + k < head.list@.len() ==> head.list@[head.head + k] == run[base + head.head + k],
        head.list@.subrange(head.head as int, head.head + k) == run.subrange(base + head.head, base + head.head + k),
{
    let sub = run.subrange(base, base + head.list@.len());
    if head.head + k < head.list@.len() {
        assert(sub[head.head + k] == run[base + head.head + k]);
    }
    assert(head.list@.subrange(head.head as int, head.head + k) =~= run.subrange(
        base + head.head,
        base + head.head + k,
    )) by {
        assert forall|i: int| 0 <= i < k implies #[trigger] head.list@.subrange(
            head.head as int,
            head.head + k,
        )[i] == run.subrange(base + head.head, base + head.head + k)[i] by {
            assert(sub[head.head + i] == run[base + head.head + i]);
        }
    }
}

proof fn lemma_tracks_rest(run: Seq<Update>, n: int, rest: Seq<Chunk>)
    requires
        0 <= n <= run.len(),
        run.skip(n) == flatten_back(rest),
        rest.len() > 0,
    ensures
        n + rest.last()@.len() <= run.len(),
        run.subrange(n, n + rest.last()@.len()) == rest.last()@,
        run.skip(n + rest.last()@.len()) == flatten_back(rest.drop_last()),
{
    let c = rest.last()@;
    let tail = flatten_back(rest.drop_last());
    assert(flatten_back(rest) == c + tail);
    assert(run.skip(n).len() == c.len() + tail.len());
    assert(run.subrange(n, n + c.len()) =~= c) by {
        assert forall|i: int| 0 <= i < c.len() implies #[trigger] run.subrange(n, n + c.len())[i] == c[i] by {
            assert(run.skip(n)[i] == (c + tail)[i]);
        }
    }
    assert(run.skip(n + c.len()) =~= tail) by {
        assert forall|i: int| 0 <= i < tail.len() implies #[trigger] run.skip(n + c.len())[i] == tail[i] by {
            assert(run.skip(n)[c.len() + i] == (c + tail)[c.len() + i]);
        }
    }
}

/// The list in reverse order.
fn reversed(list: Vec<Chunk>) -> (out: Vec<Chunk>)
    ensures
        out@.len() == list@.len(),
        forall|i: int| 0 <= i < out@.len() ==> #[trigger] out@[i] == list@[list@.len() - 1 - i],
        flatten_back(out@) == flatten(list@),
{
    let mut list = list;
    let ghost whole = list@;
    let mut out: Vec<Chunk> = Vec::new();
    while list.len() > 0
        invariant
            list@.len() + out@.len() == whole.len(),
            list@ == whole.take(list@.len() as int),
            forall|i: int| 0 <= i < out@.len() ==> #[trigger] out@[i] == whole[whole.len() - 1 - i],
            flatten(list@) + flatten_back(out@) == flatten(whole),
        decreases list@.len(),
    {
        let ghost before = list@;
        let ghost put = out@;
        let chunk = list.pop().unwrap();
        out.push(chunk);
        proof {
            assert(list@ =~= whole.take(list@.len() as int));
            assert(out@.drop_last() =~= put);
            assert(before.drop_last() =~= list@);
            assert(flatten(list@) + flatten_back(out@) =~= flatten(before) + flatten_back(put));
        }
    }
    proof {
        assert(flatten(list@) =~= Seq::<Update>::empty());
        assert(flatten(list@) + flatten_back(out@) =~= flatten_back(out@));
    }
    out
}

/// Starts to read the last chunk of `rest`, which leaves `rest`; an empty
/// chunk where `rest` is empty.
fn next_head(rest: &mut Vec<Chunk>) -> (head: FlatStackQueue)
    ensures
        head.head == 0,
        head.list@ + flatten_back(final(rest)@) == flatten_back(old(rest)@),
        old(rest)@.len() == 0 ==> final(rest)@.len() == 0 && head.list@.len() == 0,
        old(rest)@.len() > 0 ==> final(rest)@ == old(rest)@.drop_last() && head.list == old(rest)@.last(),
{
    match rest.pop() {
        Some(chunk) => FlatStackQueue::from(chunk),
        None => {
            let chunk = Chunk::new();
            proof {
                assert(chunk@ + flatten_back(rest@) =~= flatten_back(rest@));
            }
            FlatStackQueue::from(chunk)
        },
    }
}

/// Every chunk of the list holds at most as many updates as a chunk of the
/// merger is meant to hold.
pub open spec fn sized(chunks: Seq<Chunk>) -> bool {
    forall|i: int| 0 <= i < chunks.len() ==> (#[trigger] chunks[i])@.len() <= chunk_capacity_spec()
}

/// Every chunk of the list is empty and is meant to hold as many updates
/// as a chunk of the merger.
pub open spec fn stocked(chunks: Seq<Chunk>) -> bool {
    forall|i: int|
        0 <= i < chunks.len() ==> (#[trigger] chunks[i])@.len() == 0 && chunks[i].spec_capacity()
            == chunk_capacity_spec()
}

/// Where the chunks that came in are of the merger's size, so are the
/// stash, the chunk that is being filled and the chunks put out.
spec fn filling(fit: bool, stash: Seq<Chunk>, result: Chunk, output: Seq<Chunk>, out0: int) -> bool {
    fit ==> stocked(stash) && result.spec_capacity() == chunk_capacity_spec() && result@.len()
        <= result.spec_capacity() && sized(output.skip(out0))
}

/// Putting a chunk of the merger's size behind chunks of that size.
proof fn lemma_sized_push(output: Seq<Chunk>, out0: int, chunk: Chunk)
    requires
        0 <= out0 <= output.len(),
        sized(output.skip(out0)),
        chunk@.len() <= chunk_capacity_spec(),
    ensures
        sized(output.push(chunk).skip(out0)),
{
    assert forall|i: int| 0 <= i < output.push(chunk).skip(out0).len() implies (#[trigger] output.push(chunk).skip(
        out0,
    )[i])@.len() <= chunk_capacity_spec() by {
        if i < output.skip(out0).len() {
            assert(output.push(chunk).skip(out0)[i] == output.skip(out0)[i]);
        }
    }
}

/// A list of chunks of the merger's size without its last chunk.
proof fn lemma_sized_rest(left: Seq<Chunk>)
    requires
        sized(left),
        left.len() > 0,
    ensures
        sized(left.drop_last()),
        left.last()@.len() <= chunk_capacity_spec(),
{
    assert(left.last() == left[left.len() - 1]);
    assert forall|i: int| 0 <= i < left.drop_last().len() implies (#[trigger] left.drop_last()[i])@.len()
        <= chunk_capacity_spec() by {
        assert(left.drop_last()[i] == left[i]);
    }
}

/// Every chunk of the list holds exactly as many updates as a chunk of the
/// merger is meant to hold.
pub open spec fn all_full(chunks: Seq<Chunk>) -> bool {
    forall|i: int| 0 <= i < chunks.len() ==> (#[trigger] chunks[i])@.len() == chunk_capacity_spec()
}

/// Every chunk of the list but the last is full, and the last holds no
/// more than a full chunk.
pub open spec fn packed(chunks: Seq<Chunk>) -> bool {
    forall|i: int|
        0 <= i < chunks.len() ==> (#[trigger] chunks[i])@.len() <= chunk_capacity_spec() && (i < chunks.len() - 1
            ==> chunks[i]@.len() == chunk_capacity_spec())
}

/// Where the stash is of the merger's size, so is the chunk that is being
/// filled, and the chunks put out are full.
spec fn packing(fit: bool, stash: Seq<Chunk>, chunk: Chunk, output: Seq<Chunk>, out0: int) -> bool {
    fit ==> stocked(stash) && chunk.spec_capacity() == chunk_capacity_spec() && chunk.spec_capacity() > 0
        && chunk@.len() <= chunk.spec_capacity() && all_full(output.skip(out0))
}

/// Putting a full chunk behind full chunks.
proof fn lemma_full_push(output: Seq<Chunk>, out0: int, chunk: Chunk)
    requires
        0 <= out0 <= output.len(),
        all_full(output.skip(out0)),
        chunk@.len() == chunk_capacity_spec(),
    ensures
        all_full(output.push(chunk).skip(out0)),
{
    assert forall|i: int| 0 <= i < output.push(chunk).skip(out0).len() implies (#[trigger] output.push(chunk).skip(
        out0,
    )[i])@.len() == chunk_capacity_spec() by {
        if i < output.skip(out0).len() {
            assert(output.push(chunk).skip(out0)[i] == output.skip(out0)[i]);
        }
    }
}

/// Full chunks, with or without a last chunk that holds no more than a full
/// one, are packed.
proof fn lemma_packed(output: Seq<Chunk>, out0: int, last: Chunk)
    requires
        0 <= out0 <= output.len(),
        all_full(output.skip(out0)),
        last@.len() <= chunk_capacity_spec(),
    ensures
        packed(output.skip(out0)),
        packed(output.push(last).skip(out0)),
{
    assert forall|i: int| 0 <= i < output.push(last).skip(out0).len() implies (#[trigger] output.push(last).skip(
        out0,
    )[i])@.len() <= chunk_capacity_spec() && (i < output.push(last).skip(out0).len() - 1 ==> output.push(last).skip(
        out0,
    )[i]@.len() == chunk_capacity_spec()) by {
        if i < output.skip(out0).len() {
            assert(output.push(last).skip(out0)[i] == output.skip(out0)[i]);
        }
    }
}

/// A merge keeps to the size of the merger's chunks. Where the stash
/// `before` holds empty chunks of that size and no chunk of the two lists
/// holds more than a chunk of that size, the stash `after` holds such chunks
/// and no chunk of `put` holds more.
#[verifier::opaque]
pub open spec fn merged_to_size(
    before: Seq<Chunk>,
    list1: Seq<Chunk>,
    list2: Seq<Chunk>,
    after: Seq<Chunk>,
    put: Seq<Chunk>,
) -> bool {
    stocked(before) && sized(list1) && sized(list2) ==> stocked(after) && sized(put)
}

/// A split keeps to the size of the merger's chunks. Where the stash
/// `before` holds empty chunks of that size, the stash `after` holds such
/// chunks, and `kept` and `readied` are packed: every chunk of either but
/// the last is full.
#[verifier::opaque]
pub open spec fn split_to_size(before: Seq<Chunk>, after: Seq<Chunk>, kept: Seq<Chunk>, readied: Seq<Chunk>) -> bool {
    stocked(before) ==> stocked(after) && packed(kept) && packed(readied)
}

/// A merger for lists of flat chunks.
pub struct FlatcontainerMerger {}

impl Default for FlatcontainerMerger {
    fn default() -> (merger: FlatcontainerMerger) {
        FlatcontainerMerger {  }
    }
}

impl FlatcontainerMerger {
    /// The number of updates that a chunk made by the merger is meant to
    /// hold: as many as fit into the target size, and at least one.
    pub fn chunk_capacity(&self) -> (n: usize)
        ensures
            n == chunk_capacity_spec(),
            n >= 1,
    {
        let size = core::mem::size_of::<(u64, u64, i64)>();
        if size == 0 {
            BUFFER_SIZE_BYTES
        } else if size <= BUFFER_SIZE_BYTES {
            assert(8192usize / size >= 1) by (nonlinear_arith)
                requires
                    0 < size <= 8192,
            ;
            BUFFER_SIZE_BYTES / size
        } else {
            1
        }
    }

    /// An empty chunk: the last of the stash, or a new one where the stash
    /// is empty.
    pub fn empty(&self, stash: &mut Vec<Chunk>) -> (chunk: Chunk)
        requires
            blank(old(stash)@),
        ensures
            chunk@.len() == 0,
            chunk.spec_capacity() > 0,
            blank(final(stash)@),
            old(stash)@.len() > 0 ==> final(stash)@ == old(stash)@.drop_last() && chunk == old(stash)@.last(),
            old(stash)@.len() == 0 ==> final(stash)@.len() == 0 && chunk.spec_capacity()
                == chunk_capacity_spec(),
            stocked(old(stash)@) ==> stocked(final(stash)@) && chunk.spec_capacity() == chunk_capacity_spec(),
    {
        match stash.pop() {
            Some(chunk) => {
                proof {
                    assert(chunk == old(stash)@[old(stash)@.len() - 1]);
                    assert forall|i: int| 0 <= i < stash@.len() implies (#[trigger] stash@[i])@.len() == 0
                        && stash@[i].spec_capacity() > 0 by {
                        assert(stash@[i] == old(stash)@[i]);
                    }
                    if stocked(old(stash)@) {
                        assert forall|i: int| 0 <= i < stash@.len() implies (#[trigger] stash@[i])@.len() == 0
                            && stash@[i].spec_capacity() == chunk_capacity_spec() by {
                            assert(stash@[i] == old(stash)@[i]);
                        }
                    }
                }
                chunk
            },
            None => Chunk::with_capacity(self.chunk_capacity()),
        }
    }

    /// Puts a chunk that is meant to hold as many updates as the merger's
    /// own chunks into the stash, emptied; any other chunk is dropped.
    pub fn recycle(&self, chunk: Chunk, stash: &mut Vec<Chunk>)
        requires
            blank(old(stash)@),
        ensures
            blank(final(stash)@),
            chunk.spec_capacity() != chunk_capacity_spec() ==> final(stash)@ == old(stash)@,
            chunk.spec_capacity() == chunk_capacity_spec() ==> final(stash)@.len() == old(stash)@.len() + 1
                && final(stash)@.drop_last() == old(stash)@ && final(stash)@.last().spec_capacity()
                == chunk_capacity_spec(),
            stocked(old(stash)@) ==> stocked(final(stash)@),
    {
        let mut chunk = chunk;
        if chunk.capacity() == self.chunk_capacity() {
            chunk.clear();
            stash.push(chunk);
            proof {
                assert(stash@.drop_last() =~= old(stash)@);
                assert forall|i: int| 0 <= i < stash@.len() implies (#[trigger] stash@[i])@.len() == 0
                    && stash@[i].spec_capacity() > 0 by {
                    if i < old(stash)@.len() {
                        assert(stash@[i] == old(stash)@[i]);
                    }
                }
                if stocked(old(stash)@) {
                    assert forall|i: int| 0 <= i < stash@.len() implies (#[trigger] stash@[i])@.len() == 0
                        && stash@[i].spec_capacity() == chunk_capacity_spec() by {
                        if i < old(stash)@.len() {
                            assert(stash@[i] == old(stash)@[i]);
                        }
                    }
                }
            }
        }
    }

    /// Copies the next updates of `head` into `result`, as many as
    /// `result` has room for, and passes over them.
    fn fill(result: &mut Chunk, head: &mut FlatStackQueue) -> (count: usize)
        requires
            old(head).head <= old(head).list@.len(),
        ensures
            final(head).list == old(head).list,
            final(head).head == old(head).head + count,
            final(head).head <= final(head).list@.len(),
            final(result)@ == old(result)@ + old(head).list@.subrange(
                old(head).head as int,
                old(head).head + count,
            ),
            final(result).spec_capacity() == old(result).spec_capacity(),
            final(result)@.len() <= final(result).spec_capacity(),
            old(result)@.len() < old(result).spec_capacity() && old(head).head < old(head).list@.len() ==> count
                > 0,
    {
        let room = result.capacity() - result.len();
        let left = head.list.len() - head.head;
        let count = if room < left {
            room
        } else {
            left
        };
        let mut k: usize = 0;
        while k < count
            invariant
                k <= count,
                head.head + count <= head.list@.len(),
                old(result)@.len() + count <= old(result).spec_capacity(),
                result.spec_capacity() == old(result).spec_capacity(),
                result@ == old(result)@ + head.list@.subrange(head.head as int, head.head + k),
                *head == *old(head),
            decreases count - k,
        {
            let u = head.peek_at(k);
            let ghost before = result@;
            result.copy(u);
            k = k + 1;
            proof {
                assert(result@ =~= old(result)@ + head.list@.subrange(head.head as int, head.head + k));
            }
        }
        head.advance(count);
        count
    }

    /// Merges two lists of chunks into one, which is put behind the chunks
    /// of `output`.
    ///
    /// The updates put out mean what the updates of both lists mean
    /// together, and they hold no zero difference where the lists hold
    /// none. Where both lists are in strict order and hold no empty chunk,
    /// what is put out is their merge: it is in strict order; an update
    /// whose data and time the other list does not have is put out as it
    /// came, zero difference or not; for data and time that both lists
    /// have, the sum of the differences is put out, unless it is zero.
    ///
    /// A chunk is handed on when it is full. Where the stash holds chunks
    /// of the merger's size and the lists hold no larger chunk, no chunk
    /// that is put out holds more than `chunk_capacity` updates.
    pub fn merge(&mut self, list1: Vec<Chunk>, list2: Vec<Chunk>, output: &mut Vec<Chunk>, stash: &mut Vec<Chunk>)
        requires
            blank(old(stash)@),
        ensures
            final(output)@.len() >= old(output)@.len(),
            final(output)@.take(old(output)@.len() as int) == old(output)@,
            combines(
                flatten(final(output)@.skip(old(output)@.len() as int)),
                flatten(list1@),
                flatten(list2@),
            ),
            consolidated(flatten(list1@)) && consolidated(flatten(list2@)) && no_empty(list1@) && no_empty(
                list2@,
            ) ==> consolidated(flatten(final(output)@.skip(old(output)@.len() as int))),
            consolidated(flatten(list1@)) && consolidated(flatten(list2@)) && no_empty(list1@) && no_empty(
                list2@,
            ) ==> flatten(final(output)@.skip(old(output)@.len() as int)) == crate::consolidation::canonical(
                flatten(list1@) + flatten(list2@),
            ),
            strictly_sorted(flatten(list1@)) && strictly_sorted(flatten(list2@)) && no_empty(list1@) && no_empty(
                list2@,
            ) ==> merged_runs(
                flatten(final(output)@.skip(old(output)@.len() as int)),
                flatten(list1@),
                flatten(list2@),
            ),
            nonzero(flatten(list1@)) && nonzero(flatten(list2@)) ==> nonzero(
                flatten(final(output)@.skip(old(output)@.len() as int)),
            ),
            no_empty(list1@) && no_empty(list2@) ==> no_empty(final(output)@.skip(old(output)@.len() as int)),
            blank(final(stash)@),
            merged_to_size(
                old(stash)@,
                list1@,
                list2@,
                final(stash)@,
                final(output)@.skip(old(output)@.len() as int),
            ),
    {
        proof {
            reveal(merged_to_size);
        }
        let ghost fit = stocked(old(stash)@) && sized(list1@) && sized(list2@);
        let ghost a = flatten(list1@);
        let ghost b = flatten(list2@);
        let ghost solid = no_empty(list1@) && no_empty(list2@);
        let ghost ordered = strictly_sorted(a) && strictly_sorted(b) && solid;
        let ghost out0 = output@.len() as int;
        let ghost kept = output@;
        let mut rest1 = reversed(list1);
        let mut rest2 = reversed(list2);
        let ghost whole1 = rest1@;
        let ghost whole2 = rest2@;
        let mut head1 = next_head(&mut rest1);
        let mut head2 = next_head(&mut rest2);
        let mut result = self.empty(stash);
        let mut diff: i64 = i64::zero();
        let ghost mut base1: int = 0;
        let ghost mut base2: int = 0;
        let ghost mut written: Seq<Update> = Seq::empty();
        proof {
            lemma_merge_start(a, b, ordered);
            assert(output@.skip(out0) =~= Seq::<Chunk>::empty());
            assert(output@.take(out0) =~= kept);
            assert(written =~= flatten(output@.skip(out0)) + result@);
            assert(a.skip(0) =~= a);
            assert(b.skip(0) =~= b);
            assert(tracks(a, 0, head1, rest1@)) by {
                assert(a =~= head1.list@ + flatten_back(rest1@));
                assert(a.subrange(0, head1.list@.len() as int) =~= head1.list@);
                assert(a.skip(head1.list@.len() as int) =~= flatten_back(rest1@));
            }
            assert(tracks(b, 0, head2, rest2@)) by {
                assert(b =~= head2.list@ + flatten_back(rest2@));
                assert(b.subrange(0, head2.list@.len() as int) =~= head2.list@);
                assert(b.skip(head2.list@.len() as int) =~= flatten_back(rest2@));
            }
            if fit {
                assert forall|i: int| 0 <= i < whole1.len() implies (#[trigger] whole1[i])@.len()
                    <= chunk_capacity_spec() by {
                    assert(whole1[i] == list1@[list1@.len() - 1 - i]);
                }
                assert forall|i: int| 0 <= i < whole2.len() implies (#[trigger] whole2[i])@.len()
                    <= chunk_capacity_spec() by {
                    assert(whole2[i] == list2@[list2@.len() - 1 - i]);
                }
                if whole1.len() > 0 {
                    lemma_sized_rest(whole1);
                }
                if whole2.len() > 0 {
                    lemma_sized_rest(whole2);
                }
            }
            if solid {
                assert(no_empty(whole1));
                assert(no_empty(whole2));
                assert forall|i: int| 0 <= i < rest1@.len() implies (#[trigger] rest1@[i])@.len() > 0 by {
                    assert(rest1@[i] == whole1[i]);
                }
                assert forall|i: int| 0 <= i < rest2@.len() implies (#[trigger] rest2@[i])@.len() > 0 by {
                    assert(rest2@[i] == whole2[i]);
                }
                if whole1.len() > 0 {
                    assert(head1.list == whole1[whole1.len() - 1]);
                }
                if whole2.len() > 0 {
                    assert(head2.list == whole2[whole2.len() - 1]);
                }
            }
        }
        while !head1.is_empty() && !head2.is_empty()
            invariant
                writing(a, b, ordered, out0, kept, written, output@, result, base1 + head1.head, base2 + head2.head, stash@),
                tracks(a, base1, head1, rest1@),
                tracks(b, base2, head2, rest2@),
                solid ==> no_empty(rest1@) && no_empty(rest2@) && no_empty(output@.skip(out0)),
                solid && head1.head >= head1.list@.len() ==> rest1@.len() == 0,
                solid && head2.head >= head2.list@.len() ==> rest2@.len() == 0,
                filling(fit, stash@, result, output@, out0),
                fit ==> sized(rest1@) && sized(rest2@),
            decreases
                    (a.len() - (base1 + head1.head)) + (b.len() - (base2 + head2.head)),
                    (if result@.len() >= result.spec_capacity() {
                        1int
                    } else {
                        0int
                    }),
        {
            let ghost start1 = head1;
            let ghost start2 = head2;
            let ghost start = result;
            while (result.capacity() - result.len()) > 0 && !head1.is_empty() && !head2.is_empty()
                invariant
                    writing(
                        a,
                        b,
                        ordered,
                        out0,
                        kept,
                        written,
                        output@,
                        result,
                        base1 + head1.head,
                        base2 + head2.head,
                        stash@,
                    ),
                    tracks(a, base1, head1, rest1@),
                    tracks(b, base2, head2, rest2@),
                    head1.list == start1.list,
                    head2.list == start2.list,
                    head1.head >= start1.head,
                    head2.head >= start2.head,
                    head1.head == start1.head && head2.head == start2.head ==> result == start,
                    solid ==> no_empty(output@.skip(out0)),
                    filling(fit, stash@, result, output@, out0),
                decreases (a.len() - (base1 + head1.head)) + (b.len() - (base2 + head2.head)),
            {
                let x = head1.peek();
                let y = head2.peek();
                let ghost n1 = base1 + head1.head;
                let ghost n2 = base2 + head2.head;
                let ghost before = result;
                proof {
                    lemma_tracks_head(a, base1, head1, rest1@, 0);
                    lemma_tracks_head(b, base2, head2, rest2@, 0);
                }
                if key_less(&x, &y) {
                    let u = head1.pop();
                    result.copy(u);
                    proof {
                        lemma_take_first(written, a, b, n1, n2, ordered);
                        lemma_emitted_copy(written, output@, out0, kept, before, result, u);
                        written = written.push(u);
                    }
                } else if key_less(&y, &x) {
                    let u = head2.pop();
                    result.copy(u);
                    proof {
                        lemma_take_second(written, a, b, n1, n2, ordered);
                        lemma_emitted_copy(written, output@, out0, kept, before, result, u);
                        written = written.push(u);
                    }
                } else {
                    let u1 = head1.pop();
                    let u2 = head2.pop();
                    diff = u1.diff;
                    diff.plus_equals(&u2.diff);
                    let sum = Update { data: u1.data, time: u1.time, diff };
                    proof {
                        lemma_take_both(written, a, b, n1, n2, sum, ordered);
                    }
                    if !diff.is_zero() {
                        result.copy(sum);
                        proof {
                            lemma_emitted_copy(written, output@, out0, kept, before, result, sum);
                            written = written.push(sum);
                        }
                    }
                }
            }
            if result.capacity() == result.len() {
                let ghost full = result;
                let ghost put = output@;
                output.push(result);
                result = self.empty(stash);
                proof {
                    lemma_emitted_flush(written, put, out0, kept, full, result);
                    if solid {
                        lemma_no_empty_push(put, out0, full);
                    }
                    if fit {
                        lemma_sized_push(put, out0, full);
                    }
                }
            }
            if head1.is_empty() {
                let ghost read = head1;
                let ghost left = rest1@;
                self.recycle(head1.done(), stash);
                head1 = next_head(&mut rest1);
                proof {
                    lemma_tracks_next(a, base1, read, left, head1, rest1@);
                    base1 = base1 + read.list@.len();
                    if fit && left.len() > 0 {
                        lemma_sized_rest(left);
                    }
                    if solid {
                        assert forall|i: int| 0 <= i < rest1@.len() implies (#[trigger] rest1@[i])@.len() > 0 by {
                            assert(rest1@[i] == left[i]);
                        }
                        if left.len() > 0 {
                            assert(head1.list == left[left.len() - 1]);
                        }
                    }
                }
            }
            if head2.is_empty() {
                let ghost read = head2;
                let ghost left = rest2@;
                self.recycle(head2.done(), stash);
                head2 = next_head(&mut rest2);
                proof {
                    lemma_tracks_next(b, base2, read, left, head2, rest2@);
                    base2 = base2 + read.list@.len();
                    if fit && left.len() > 0 {
                        lemma_sized_rest(left);
                    }
                    if solid {
                        assert forall|i: int| 0 <= i < rest2@.len() implies (#[trigger] rest2@[i])@.len() > 0 by {
                            assert(rest2@[i] == left[i]);
                        }
                        if left.len() > 0 {
                            assert(head2.list == left[left.len() - 1]);
                        }
                    }
                }
            }
        }

        while !head1.is_empty()
            invariant
                writing(a, b, ordered, out0, kept, written, output@, result, base1 + head1.head, base2 + head2.head, stash@),
                tracks(a, base1, head1, rest1@),
                tracks(b, base2, head2, rest2@),
                ordered && (head1.head < head1.list@.len() || rest1@.len() > 0) ==> base2 + head2.head == b.len(),
                solid ==> no_empty(rest1@) && no_empty(rest2@) && no_empty(output@.skip(out0)),
                filling(fit, stash@, result, output@, out0),
                fit ==> sized(rest1@) && sized(rest2@),
            decreases
                    head1.list@.len() - head1.head,
                    (if result@.len() >= result.spec_capacity() {
                        1int
                    } else {
                        0int
                    }),
        {
            let ghost before = result;
            let ghost read = head1;
            let ghost n1 = base1 + head1.head;
            let ghost n2 = base2 + head2.head;
            let count = Self::fill(&mut result, &mut head1);
            let ghost run = read.list@.subrange(read.head as int, read.head + count);
            proof {
                lemma_tracks_head(a, base1, read, rest1@, count as int);
                lemma_take_first_run(written, a, b, n1, n2, count as int, ordered);
                lemma_emitted_run(written, output@, out0, kept, before, result, run);
                written = written + run;
            }
            let ghost full = result;
            let ghost put = output@;
            output.push(result);
            result = self.empty(stash);
            proof {
                lemma_emitted_flush(written, put, out0, kept, full, result);
                if solid {
                    lemma_no_empty_push(put, out0, full);
                }
                if fit {
                    lemma_sized_push(put, out0, full);
                }
            }
        }
        if !result.is_empty() {
            let ghost full = result;
            let ghost put = output@;
            output.push(result);
            result = self.empty(stash);
            proof {
                lemma_emitted_flush(written, put, out0, kept, full, result);
                if solid {
                    lemma_no_empty_push(put, out0, full);
                }
                if fit {
                    lemma_sized_push(put, out0, full);
                }
            }
        }
        let ghost mut n1: int = base1 + head1.head;
        let ghost n2: int = base2 + head2.head;
        while rest1.len() > 0
            invariant
                writing(a, b, ordered, out0, kept, written, output@, result, n1, n2, stash@),
                result@.len() == 0,
                0 <= n1 <= a.len(),
                a.skip(n1) == flatten_back(rest1@),
                ordered && rest1@.len() > 0 ==> n2 == b.len(),
                solid ==> no_empty(rest1@) && no_empty(rest2@) && no_empty(output@.skip(out0)),
                filling(fit, stash@, result, output@, out0),
                fit ==> sized(rest1@) && sized(rest2@),
            decreases rest1@.len(),
        {
            let ghost left = rest1@;
            let ghost put = output@;
            let chunk = rest1.pop().unwrap();
            output.push(chunk);
            proof {
                lemma_tracks_rest(a, n1, left);
                lemma_take_first_run(written, a, b, n1, n2, chunk@.len() as int, ordered);
                lemma_emitted_chunk(written, put, out0, kept, result, chunk);
                if fit {
                    lemma_sized_rest(left);
                    lemma_sized_push(put, out0, chunk);
                }
                if solid {
                    assert(chunk == left[left.len() - 1]);
                    lemma_no_empty_push(put, out0, chunk);
                    assert forall|i: int| 0 <= i < rest1@.len() implies (#[trigger] rest1@[i])@.len() > 0 by {
                        assert(rest1@[i] == left[i]);
                    }
                }
                written = written + chunk@;
                n1 = n1 + chunk@.len();
            }
        }
        proof {
            assert(flatten_back(rest1@) =~= Seq::<Update>::empty());
            assert(a.skip(n1).len() == 0);
            assert(n1 == a.len());
        }
        self.recycle(head1.done(), stash);

        while !head2.is_empty()
            invariant
                writing(a, b, ordered, out0, kept, written, output@, result, a.len() as int, base2 + head2.head, stash@),
                tracks(b, base2, head2, rest2@),
                result@.len() == 0,
                solid ==> no_empty(rest2@) && no_empty(output@.skip(out0)),
                filling(fit, stash@, result, output@, out0),
                fit ==> sized(rest2@),
            decreases
                    head2.list@.len() - head2.head,
                    (if result@.len() >= result.spec_capacity() {
                        1int
                    } else {
                        0int
                    }),
        {
            let ghost before = result;
            let ghost read = head2;
            let ghost m2 = base2 + head2.head;
            let count = Self::fill(&mut result, &mut head2);
            let ghost run = read.list@.subrange(read.head as int, read.head + count);
            proof {
                lemma_tracks_head(b, base2, read, rest2@, count as int);
                lemma_take_second_run(written, a, b, a.len() as int, m2, count as int, ordered);
                lemma_emitted_run(written, output@, out0, kept, before, result, run);
                written = written + run;
            }
            let ghost full = result;
            let ghost put = output@;
            output.push(result);
            result = self.empty(stash);
            proof {
                lemma_emitted_flush(written, put, out0, kept, full, result);
                if solid {
                    lemma_no_empty_push(put, out0, full);
                }
                if fit {
                    lemma_sized_push(put, out0, full);
                }
            }
        }
        let ghost mut m2: int = base2 + head2.head;
        while rest2.len() > 0
            invariant
                writing(a, b, ordered, out0, kept, written, output@, result, a.len() as int, m2, stash@),
                result@.len() == 0,
                0 <= m2 <= b.len(),
                b.skip(m2) == flatten_back(rest2@),
                solid ==> no_empty(rest2@) && no_empty(output@.skip(out0)),
                filling(fit, stash@, result, output@, out0),
                fit ==> sized(rest2@),
            decreases rest2@.len(),
        {
            let ghost left = rest2@;
            let ghost put2 = output@;
            let chunk = rest2.pop().unwrap();
            output.push(chunk);
            proof {
                lemma_tracks_rest(b, m2, left);
                lemma_take_second_run(written, a, b, a.len() as int, m2, chunk@.len() as int, ordered);
                lemma_emitted_chunk(written, put2, out0, kept, result, chunk);
                if fit {
                    lemma_sized_rest(left);
                    lemma_sized_push(put2, out0, chunk);
                }
                if solid {
                    assert(chunk == left[left.len() - 1]);
                    lemma_no_empty_push(put2, out0, chunk);
                    assert forall|i: int| 0 <= i < rest2@.len() implies (#[trigger] rest2@[i])@.len() > 0 by {
                        assert(rest2@[i] == left[i]);
                    }
                }
                written = written + chunk@;
                m2 = m2 + chunk@.len();
            }
        }
        proof {
            assert(flatten_back(rest2@) =~= Seq::<Update>::empty());
            assert(b.skip(m2).len() == 0);
            assert(m2 == b.len());
            assert(a.take(a.len() as int) =~= a);
            assert(b.take(b.len() as int) =~= b);
            assert(written =~= flatten(output@.skip(out0)));
            crate::consolidation::lemma_combines_concat(written, a, b);
            if consolidated(a) && consolidated(b) && solid {
                crate::consolidation::lemma_canonical(written, a + b);
            }
        }
        self.recycle(head2.done(), stash);
    }

    /// Splits a list of chunks at `upper`.
    ///
    /// The updates whose time is in advance of `upper` are put behind the
    /// chunks of `kept` and their times into `frontier`; the others are put
    /// behind the chunks of `readied`. Either part keeps the order of the
    /// list. The chunks of the list go to the stash.
    ///
    /// A chunk is handed on when it is full. Where the stash holds chunks
    /// of the merger's size, every chunk put behind `kept` or `readied` but
    /// the last holds `chunk_capacity` updates, and the last no more.
    pub fn extract(
        &mut self,
        merged: Vec<Chunk>,
        upper: &Antichain<u64>,
        frontier: &mut Antichain<u64>,
        readied: &mut Vec<Chunk>,
        kept: &mut Vec<Chunk>,
        stash: &mut Vec<Chunk>,
    )
        requires
            blank(old(stash)@),
        ensures
            final(kept)@.len() >= old(kept)@.len(),
            final(kept)@.take(old(kept)@.len() as int) == old(kept)@,
            flatten(final(kept)@.skip(old(kept)@.len() as int)) == kept_updates(
                flatten(merged@),
                antichain_elements(*upper),
            ),
            final(readied)@.len() >= old(readied)@.len(),
            final(readied)@.take(old(readied)@.len() as int) == old(readied)@,
            flatten(final(readied)@.skip(old(readied)@.len() as int)) == ready_updates(
                flatten(merged@),
                antichain_elements(*upper),
            ),
            antichain_elements(*final(frontier)) == lower_bound(
                antichain_elements(*old(frontier)),
                kept_updates(flatten(merged@), antichain_elements(*upper)),
            ),
            combines(
                flatten(merged@),
                flatten(final(kept)@.skip(old(kept)@.len() as int)),
                flatten(final(readied)@.skip(old(readied)@.len() as int)),
            ),
            forall|i: int|
                0 <= i < kept_updates(flatten(merged@), antichain_elements(*upper)).len() ==> in_advance_of(
                    antichain_elements(*final(frontier)),
                    (#[trigger] kept_updates(flatten(merged@), antichain_elements(*upper))[i]).time,
                ),
            no_empty(final(kept)@.skip(old(kept)@.len() as int)),
            no_empty(final(readied)@.skip(old(readied)@.len() as int)),
            blank(final(stash)@),
            split_to_size(
                old(stash)@,
                final(stash)@,
                final(kept)@.skip(old(kept)@.len() as int),
                final(readied)@.skip(old(readied)@.len() as int),
            ),
    {
        proof {
            reveal(split_to_size);
        }
        let ghost fit = stocked(old(stash)@);
        let ghost whole = flatten(merged@);
        proof {
            lemma_split_combines(whole, antichain_elements(*upper));
            lemma_lower_bound_covers(
                antichain_elements(*frontier),
                kept_updates(whole, antichain_elements(*upper)),
            );
        }
        let ghost bound = antichain_elements(*upper);
        let ghost elements = antichain_elements(*frontier);
        let ghost kept0 = kept@;
        let ghost readied0 = readied@;
        let ghost k0 = kept@.len() as int;
        let ghost r0 = readied@.len() as int;
        let mut keep = self.empty(stash);
        let mut ready = self.empty(stash);
        let mut rest = reversed(merged);
        let ghost mut n: int = 0;
        proof {
            assert(whole.skip(0) =~= whole);
            assert(whole.take(0) =~= Seq::<Update>::empty());
            assert(kept@.skip(k0) =~= Seq::<Chunk>::empty());
            assert(readied@.skip(r0) =~= Seq::<Chunk>::empty());
            assert(kept@.take(k0) =~= kept0);
            assert(readied@.take(r0) =~= readied0);
            assert(Seq::<Update>::empty() =~= flatten(kept@.skip(k0)) + keep@);
            assert(Seq::<Update>::empty() =~= flatten(readied@.skip(r0)) + ready@);
        }
        while rest.len() > 0
            invariant
                blank(stash@),
                0 <= n <= whole.len(),
                whole.skip(n) == flatten_back(rest@),
                emitted(kept_updates(whole.take(n), bound), kept@, k0, kept0, keep),
                emitted(ready_updates(whole.take(n), bound), readied@, r0, readied0, ready),
                antichain_elements(*frontier) == lower_bound(elements, kept_updates(whole.take(n), bound)),
                bound == antichain_elements(*upper),
                no_empty(kept@.skip(k0)),
                no_empty(readied@.skip(r0)),
                packing(fit, stash@, keep, kept@, k0),
                packing(fit, stash@, ready, readied@, r0),
            decreases rest@.len(),
        {
            let ghost left = rest@;
            let buffer = rest.pop().unwrap();
            proof {
                lemma_tracks_rest(whole, n, left);
            }
            let len = buffer.len();
            let mut index: usize = 0;
            while index < len
                invariant
                    blank(stash@),
                    index <= len,
                    len == buffer@.len(),
                    0 <= n,
                    n + len <= whole.len(),
                    whole.subrange(n, n + len) == buffer@,
                    emitted(kept_updates(whole.take(n + index), bound), kept@, k0, kept0, keep),
                    emitted(ready_updates(whole.take(n + index), bound), readied@, r0, readied0, ready),
                    antichain_elements(*frontier) == lower_bound(
                        elements,
                        kept_updates(whole.take(n + index), bound),
                    ),
                    bound == antichain_elements(*upper),
                    no_empty(kept@.skip(k0)),
                    no_empty(readied@.skip(r0)),
                    packing(fit, stash@, keep, kept@, k0),
                    packing(fit, stash@, ready, readied@, r0),
                decreases len - index,
            {
                let u = buffer.get(index);
                let ghost read = whole.take(n + index);
                proof {
                    assert(whole.subrange(n, n + len)[index as int] == whole[n + index]);
                    assert(whole.take(n + index + 1) =~= read.push(u));
                    assert(read.push(u).drop_last() =~= read);
                }
                if antichain_less_equal(upper, &u.time) {
                    antichain_insert(frontier, &u.time);
                    if keep.len() == keep.capacity() && !keep.is_empty() {
                        let ghost full = keep;
                        let ghost put = kept@;
                        kept.push(keep);
                        keep = self.empty(stash);
                        proof {
                            lemma_emitted_flush(kept_updates(read, bound), put, k0, kept0, full, keep);
                            lemma_no_empty_push(put, k0, full);
                            if fit {
                                lemma_full_push(put, k0, full);
                            }
                        }
                    }
                    let ghost before = keep;
                    keep.copy(u);
                    proof {
                        lemma_emitted_copy(kept_updates(read, bound), kept@, k0, kept0, before, keep, u);
                        assert(kept_updates(read, bound).push(u).drop_last() =~= kept_updates(read, bound));
                    }
                } else {
                    if ready.len() == ready.capacity() && !ready.is_empty() {
                        let ghost full = ready;
                        let ghost put = readied@;
                        readied.push(ready);
                        ready = self.empty(stash);
                        proof {
                            lemma_emitted_flush(ready_updates(read, bound), put, r0, readied0, full, ready);
                            lemma_no_empty_push(put, r0, full);
                            if fit {
                                lemma_full_push(put, r0, full);
                            }
                        }
                    }
                    let ghost before = ready;
                    ready.copy(u);
                    proof {
                        lemma_emitted_copy(ready_updates(read, bound), readied@, r0, readied0, before, ready, u);
                    }
                }
                index = index + 1;
            }
            proof {
                n = n + len;
            }
            self.recycle(buffer, stash);
        }
        proof {
            assert(flatten_back(rest@) =~= Seq::<Update>::empty());
            assert(whole.skip(n).len() == 0);
            assert(whole.take(n) =~= whole);
        }
        proof {
            if fit {
                lemma_packed(kept@, k0, keep);
                lemma_packed(readied@, r0, ready);
            }
        }
        if !keep.is_empty() {
            let ghost put = kept@;
            let ghost last = keep;
            kept.push(keep);
            proof {
                assert(kept@.skip(k0) =~= put.skip(k0).push(last));
                lemma_no_empty_push(put, k0, last);
                lemma_flatten_push(put.skip(k0), last);
                assert(kept@.take(k0) =~= put.take(k0));
            }
        } else {
            proof {
                assert(flatten(kept@.skip(k0)) + keep@ =~= flatten(kept@.skip(k0)));
            }
        }
        if !ready.is_empty() {
            let ghost put = readied@;
            let ghost last = ready;
            readied.push(ready);
            proof {
                assert(readied@.skip(r0) =~= put.skip(r0).push(last));
                lemma_no_empty_push(put, r0, last);
                lemma_flatten_push(put.skip(r0), last);
                assert(readied@.take(r0) =~= put.take(r0));
            }
        } else {
            proof {
                assert(flatten(readied@.skip(r0)) + ready@ =~= flatten(readied@.skip(r0)));
            }
        }
    }
}

} // verus!
