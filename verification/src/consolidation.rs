//! What a sequence of updates means, and how to bring it into normal form.
//!
//! The meaning of a sequence is, for each data and time, the sum of the
//! differences recorded for them. A sequence is consolidated when it is in
//! strict order and holds no zero difference: then it is the only such
//! sequence with its meaning.

use vstd::prelude::*;
use crate::difference::congruent;
use crate::difference::lemma_congruent_weights;
use crate::difference::lemma_congruent_sub;
use crate::lattice::beyond;
use crate::update::times_beyond;
use crate::difference::plus;
use crate::difference::Semigroup;
use crate::lattice::advance_spec;
use crate::lattice::lemma_advance_query;
use crate::update::advance_by;
use crate::update::advance_update;
use crate::update::advanced;
use crate::update::key_equal;
use crate::update::key_le;
use crate::update::key_less;
use crate::update::key_lt;
use crate::update::lemma_advance_keeps_order;
use crate::update::nonzero;
use crate::update::same_key;
use crate::update::sorted;
use crate::update::strictly_sorted;
use crate::update::Update;

verus! {

/// What `u` adds to the sum for `data` at `time`.
pub open spec fn contribution(u: Update, data: u64, time: u64) -> int {
    if u.data == data && u.time == time {
        u.diff as int
    } else {
        0
    }
}

/// The sum of the differences that `s` records for `data` at `time`.
pub open spec fn total(s: Seq<Update>, data: u64, time: u64) -> int
    decreases s.len(),
{
    if s.len() == 0 {
        0
    } else {
        total(s.drop_last(), data, time) + contribution(s.last(), data, time)
    }
}

/// What `u` adds to the sum for `data` over the times up to `query`.
pub open spec fn contribution_upto(u: Update, data: u64, query: u64) -> int {
    if u.data == data && u.time <= query {
        u.diff as int
    } else {
        0
    }
}

/// The sum of the differences that `s` records for `data` at the times
/// less than or equal to `query`.
pub open spec fn accumulated(s: Seq<Update>, data: u64, query: u64) -> int
    decreases s.len(),
{
    if s.len() == 0 {
        0
    } else {
        accumulated(s.drop_last(), data, query) + contribution_upto(s.last(), data, query)
    }
}

/// In strict order and without zero differences.
pub open spec fn consolidated(s: Seq<Update>) -> bool {
    strictly_sorted(s) && nonzero(s)
}

/// `a` and `b` mean the same: they record the same weight for each data and
/// time.
pub open spec fn equivalent(a: Seq<Update>, b: Seq<Update>) -> bool {
    forall|d: u64, t: u64|
        #![trigger total(a, d, t)]
        #![trigger total(b, d, t)]
        congruent(total(a, d, t), total(b, d, t))
}

/// `out` means what `a` and `b` mean together.
pub open spec fn combines(out: Seq<Update>, a: Seq<Update>, b: Seq<Update>) -> bool {
    forall|d: u64, t: u64|
        #![trigger total(out, d, t)]
        #![trigger total(a, d, t)]
        #![trigger total(b, d, t)]
        congruent(total(out, d, t), total(a, d, t) + total(b, d, t))
}

/// `a` and `b` accumulate to the same weights at every query time beyond
/// `since`.
pub open spec fn agree_from(a: Seq<Update>, b: Seq<Update>, since: Seq<u64>) -> bool {
    forall|d: u64, q: u64|
        #![trigger accumulated(a, d, q)]
        #![trigger accumulated(b, d, q)]
        crate::lattice::beyond(since, q) ==> congruent(accumulated(a, d, q), accumulated(b, d, q))
}

/// Appending an update adds its contribution.
pub proof fn lemma_total_push(s: Seq<Update>, u: Update)
    ensures
        forall|d: u64, t: u64| #[trigger] total(s.push(u), d, t) == total(s, d, t) + contribution(u, d, t),
{
    assert(s.push(u).drop_last() =~= s);
}

/// The total of a concatenation is the sum of the totals.
pub proof fn lemma_total_concat(a: Seq<Update>, b: Seq<Update>)
    ensures
        forall|d: u64, t: u64| #[trigger] total(a + b, d, t) == total(a, d, t) + total(b, d, t),
    decreases b.len(),
{
    if b.len() == 0 {
        assert(a + b =~= a);
        assert forall|d: u64, t: u64| #[trigger] total(a + b, d, t) == total(a, d, t) + total(b, d, t) by {}
    } else {
        lemma_total_concat(a, b.drop_last());
        assert((a + b).drop_last() =~= a + b.drop_last());
        assert((a + b).last() == b.last());
        assert forall|d: u64, t: u64| #[trigger] total(a + b, d, t) == total(a, d, t) + total(b, d, t) by {
            assert(total(a + b.drop_last(), d, t) == total(a, d, t) + total(b.drop_last(), d, t));
        }
    }
}

/// A sequence in which no update has the given data and time totals zero.
pub proof fn lemma_total_absent(s: Seq<Update>, data: u64, time: u64)
    requires
        forall|i: int| 0 <= i < s.len() ==> !((#[trigger] s[i]).data == data && s[i].time == time),
    ensures
        total(s, data, time) == 0,
    decreases s.len(),
{
    if s.len() > 0 {
        assert forall|i: int| 0 <= i < s.drop_last().len() implies !((#[trigger] s.drop_last()[i]).data
            == data && s.drop_last()[i].time == time) by {
            assert(s.drop_last()[i] == s[i]);
        }
        lemma_total_absent(s.drop_last(), data, time);
        assert(s.last() == s[s.len() - 1]);
    }
}

/// In a strictly sorted sequence the total for the data and time of an
/// element is that element's difference.
pub proof fn lemma_total_present(s: Seq<Update>, k: int)
    requires
        strictly_sorted(s),
        0 <= k < s.len(),
    ensures
        total(s, s[k].data, s[k].time) == s[k].diff,
{
    let left = s.take(k);
    let right = s.skip(k + 1);
    assert(s =~= left.push(s[k]) + right);
    lemma_total_concat(left.push(s[k]), right);
    lemma_total_push(left, s[k]);
    assert forall|i: int| 0 <= i < left.len() implies !((#[trigger] left[i]).data == s[k].data
        && left[i].time == s[k].time) by {
        assert(key_lt(s[i], s[k]));
    }
    lemma_total_absent(left, s[k].data, s[k].time);
    assert forall|i: int| 0 <= i < right.len() implies !((#[trigger] right[i]).data == s[k].data
        && right[i].time == s[k].time) by {
        assert(key_lt(s[k], s[k + 1 + i]));
    }
    lemma_total_absent(right, s[k].data, s[k].time);
}

/// The accumulation of a concatenation is the sum of the accumulations.
pub proof fn lemma_accumulated_concat(a: Seq<Update>, b: Seq<Update>)
    ensures
        forall|d: u64, q: u64| #[trigger]
            accumulated(a + b, d, q) == accumulated(a, d, q) + accumulated(b, d, q),
    decreases b.len(),
{
    if b.len() == 0 {
        assert(a + b =~= a);
        assert forall|d: u64, q: u64| #[trigger]
            accumulated(a + b, d, q) == accumulated(a, d, q) + accumulated(b, d, q) by {}
    } else {
        lemma_accumulated_concat(a, b.drop_last());
        assert((a + b).drop_last() =~= a + b.drop_last());
        assert((a + b).last() == b.last());
        assert forall|d: u64, q: u64| #[trigger]
            accumulated(a + b, d, q) == accumulated(a, d, q) + accumulated(b, d, q) by {
            assert(accumulated(a + b.drop_last(), d, q) == accumulated(a, d, q) + accumulated(
                b.drop_last(),
                d,
                q,
            ));
        }
    }
}

/// Advancing the times to `since` leaves the accumulation at every query
/// time beyond `since` as it was.
pub proof fn lemma_accumulated_advanced(s: Seq<Update>, since: Seq<u64>, data: u64, query: u64)
    requires
        crate::lattice::beyond(since, query),
    ensures
        accumulated(advanced(s, since), data, query) == accumulated(s, data, query),
    decreases s.len(),
{
    if s.len() > 0 {
        assert(advanced(s, since).drop_last() =~= advanced(s.drop_last(), since));
        lemma_accumulated_advanced(s.drop_last(), since, data, query);
        lemma_advance_query(s.last().time, since, query);
    }
}

/// The sum of the totals of `s` for `data` over the times up to `query`.
pub open spec fn total_upto(s: Seq<Update>, data: u64, query: u64) -> int
    decreases query,
{
    if query == 0 {
        total(s, data, 0)
    } else {
        total_upto(s, data, (query - 1) as u64) + total(s, data, query)
    }
}

proof fn lemma_contribution_upto(u: Update, data: u64, query: u64)
    ensures
        total_upto(seq![u], data, query) == contribution_upto(u, data, query),
    decreases query,
{
    assert(seq![u] =~= Seq::<Update>::empty().push(u));
    lemma_total_push(Seq::<Update>::empty(), u);
    assert forall|t: u64| #[trigger] total(seq![u], data, t) == contribution(u, data, t) by {
        assert(total(Seq::<Update>::empty(), data, t) == 0);
    }
    if query > 0 {
        lemma_contribution_upto(u, data, (query - 1) as u64);
    }
}

proof fn lemma_total_upto_concat(a: Seq<Update>, b: Seq<Update>, data: u64, query: u64)
    ensures
        total_upto(a + b, data, query) == total_upto(a, data, query) + total_upto(b, data, query),
    decreases query,
{
    lemma_total_concat(a, b);
    if query > 0 {
        lemma_total_upto_concat(a, b, data, (query - 1) as u64);
    }
}

/// The accumulation up to a query time is the sum of the totals at the
/// times up to it.
pub proof fn lemma_accumulated_is_total_upto(s: Seq<Update>, data: u64, query: u64)
    ensures
        accumulated(s, data, query) == total_upto(s, data, query),
    decreases s.len(),
{
    if s.len() == 0 {
        assert(s =~= Seq::<Update>::empty());
        lemma_total_upto_empty(data, query);
    } else {
        assert(s.drop_last() + seq![s.last()] =~= s);
        lemma_accumulated_is_total_upto(s.drop_last(), data, query);
        lemma_contribution_upto(s.last(), data, query);
        lemma_total_upto_concat(s.drop_last(), seq![s.last()], data, query);
    }
}

proof fn lemma_total_upto_empty(data: u64, query: u64)
    ensures
        total_upto(Seq::<Update>::empty(), data, query) == 0,
    decreases query,
{
    if query > 0 {
        lemma_total_upto_empty(data, (query - 1) as u64);
    }
}

proof fn lemma_total_upto_congruent(a: Seq<Update>, b: Seq<Update>, data: u64, query: u64)
    requires
        equivalent(a, b),
    ensures
        congruent(total_upto(a, data, query), total_upto(b, data, query)),
    decreases query,
{
    assert(congruent(total(a, data, query), total(b, data, query)));
    if query > 0 {
        lemma_total_upto_congruent(a, b, data, (query - 1) as u64);
    }
}

/// Sequences with the same meaning accumulate to the same weights at every
/// query time.
pub proof fn lemma_equivalent_accumulated(a: Seq<Update>, b: Seq<Update>, data: u64, query: u64)
    requires
        equivalent(a, b),
    ensures
        congruent(accumulated(a, data, query), accumulated(b, data, query)),
{
    lemma_accumulated_is_total_upto(a, data, query);
    lemma_accumulated_is_total_upto(b, data, query);
    lemma_total_upto_congruent(a, b, data, query);
}

/// A sequence whose times are all after `query` accumulates nothing up to
/// `query`.
pub proof fn lemma_accumulated_before(s: Seq<Update>, data: u64, query: u64)
    requires
        forall|i: int| 0 <= i < s.len() ==> (#[trigger] s[i]).time > query,
    ensures
        accumulated(s, data, query) == 0,
    decreases s.len(),
{
    if s.len() > 0 {
        assert forall|i: int| 0 <= i < s.drop_last().len() implies (#[trigger] s.drop_last()[i]).time > query by {
            assert(s.drop_last()[i] == s[i]);
        }
        lemma_accumulated_before(s.drop_last(), data, query);
        assert(s.last() == s[s.len() - 1]);
    }
}

/// Sequences whose times are all beyond `since`, and which agree at every
/// query time beyond `since`, record weights for `data` at `time` that
/// agree.
proof fn lemma_agree_at(a: Seq<Update>, b: Seq<Update>, since: Seq<u64>, data: u64, time: u64)
    requires
        agree_from(a, b, since),
        times_beyond(a, since),
        times_beyond(b, since),
    ensures
        congruent(total(a, data, time), total(b, data, time)),
{
    if !beyond(since, time) {
        let i = choose|i: int| 0 <= i < since.len() && !(#[trigger] since[i] <= time);
        assert forall|j: int| 0 <= j < a.len() implies !((#[trigger] a[j]).data == data && a[j].time == time) by {
            assert(beyond(since, a[j].time));
            assert(since[i] <= a[j].time);
        }
        assert forall|j: int| 0 <= j < b.len() implies !((#[trigger] b[j]).data == data && b[j].time == time) by {
            assert(beyond(since, b[j].time));
            assert(since[i] <= b[j].time);
        }
        lemma_total_absent(a, data, time);
        lemma_total_absent(b, data, time);
    } else {
        lemma_accumulated_is_total_upto(a, data, time);
        lemma_accumulated_is_total_upto(b, data, time);
        assert(congruent(accumulated(a, data, time), accumulated(b, data, time)));
        if time > 0 {
            let p = (time - 1) as u64;
            lemma_accumulated_is_total_upto(a, data, p);
            lemma_accumulated_is_total_upto(b, data, p);
            if beyond(since, p) {
                assert(congruent(accumulated(a, data, p), accumulated(b, data, p)));
            } else {
                let i = choose|i: int| 0 <= i < since.len() && !(#[trigger] since[i] <= p);
                assert forall|j: int| 0 <= j < a.len() implies (#[trigger] a[j]).time > p by {
                    assert(beyond(since, a[j].time));
                    assert(since[i] <= a[j].time);
                }
                assert forall|j: int| 0 <= j < b.len() implies (#[trigger] b[j]).time > p by {
                    assert(beyond(since, b[j].time));
                    assert(since[i] <= b[j].time);
                }
                lemma_accumulated_before(a, data, p);
                lemma_accumulated_before(b, data, p);
            }
            lemma_congruent_sub(
                accumulated(a, data, time),
                accumulated(b, data, time),
                accumulated(a, data, p),
                accumulated(b, data, p),
            );
        }
    }
}

/// Sequences whose times are all beyond `since`, and which agree at every
/// query time beyond `since`, mean the same.
pub proof fn lemma_agree_equivalent(a: Seq<Update>, b: Seq<Update>, since: Seq<u64>)
    requires
        agree_from(a, b, since),
        times_beyond(a, since),
        times_beyond(b, since),
    ensures
        equivalent(a, b),
{
    assert forall|d: u64, t: u64|
        #![trigger total(a, d, t)]
        #![trigger total(b, d, t)]
        congruent(total(a, d, t), total(b, d, t)) by {
        lemma_agree_at(a, b, since, d, t);
    }
}

/// The updates of `s` with their times advanced to `since` have times
/// beyond `since`.
pub proof fn lemma_advanced_beyond(s: Seq<Update>, since: Seq<u64>)
    ensures
        times_beyond(advanced(s, since), since),
{
    assert forall|i: int| 0 <= i < advanced(s, since).len() implies beyond(
        since,
        (#[trigger] advanced(s, since)[i]).time,
    ) by {
        crate::lattice::lemma_advance_reaches(s[i].time, since);
    }
}

/// A sequence that means what `s` means once its times are advanced to
/// `since` agrees with `s` at every query time beyond `since`.
pub proof fn lemma_advanced_agrees(out: Seq<Update>, s: Seq<Update>, since: Seq<u64>)
    requires
        equivalent(out, advanced(s, since)),
    ensures
        agree_from(out, s, since),
{
    assert forall|d: u64, q: u64| crate::lattice::beyond(since, q) implies congruent(
        #[trigger] accumulated(out, d, q),
        accumulated(s, d, q),
    ) by {
        lemma_equivalent_accumulated(out, advanced(s, since), d, q);
        lemma_accumulated_advanced(s, since, d, q);
    }
    assert forall|d: u64, q: u64| crate::lattice::beyond(since, q) implies congruent(
        accumulated(out, d, q),
        #[trigger] accumulated(s, d, q),
    ) by {
        lemma_equivalent_accumulated(out, advanced(s, since), d, q);
        lemma_accumulated_advanced(s, since, d, q);
    }
}

/// A single update totals its contribution.
pub proof fn lemma_single_total(u: Update)
    ensures
        forall|d: u64, t: u64| #[trigger] total(seq![u], d, t) == contribution(u, d, t),
{
    assert(seq![u] =~= Seq::<Update>::empty().push(u));
    lemma_total_push(Seq::<Update>::empty(), u);
    assert forall|d: u64, t: u64| #[trigger] total(seq![u], d, t) == contribution(u, d, t) by {
        assert(total(Seq::<Update>::empty(), d, t) == 0);
    }
}

/// Every sequence means what it means.
pub proof fn lemma_equivalent_refl(a: Seq<Update>)
    ensures
        equivalent(a, a),
{
}

/// Having the same meaning is symmetric.
pub proof fn lemma_equivalent_sym(a: Seq<Update>, b: Seq<Update>)
    requires
        equivalent(a, b),
    ensures
        equivalent(b, a),
{
    assert forall|d: u64, t: u64|
        #![trigger total(b, d, t)]
        #![trigger total(a, d, t)]
        congruent(total(b, d, t), total(a, d, t)) by {
        assert(congruent(total(a, d, t), total(b, d, t)));
    }
}

/// Having the same meaning is transitive.
pub proof fn lemma_equivalent_trans(a: Seq<Update>, b: Seq<Update>, c: Seq<Update>)
    requires
        equivalent(a, b),
        equivalent(b, c),
    ensures
        equivalent(a, c),
{
    assert forall|d: u64, t: u64|
        #![trigger total(a, d, t)]
        #![trigger total(c, d, t)]
        congruent(total(a, d, t), total(c, d, t)) by {
        assert(congruent(total(a, d, t), total(b, d, t)));
        assert(congruent(total(b, d, t), total(c, d, t)));
    }
}

/// Concatenating sequences with the same meanings gives sequences with the
/// same meaning.
pub proof fn lemma_equivalent_concat(a: Seq<Update>, b: Seq<Update>, c: Seq<Update>, d: Seq<Update>)
    requires
        equivalent(a, c),
        equivalent(b, d),
    ensures
        equivalent(a + b, c + d),
{
    lemma_total_concat(a, b);
    lemma_total_concat(c, d);
    assert forall|x: u64, t: u64|
        #![trigger total(a + b, x, t)]
        #![trigger total(c + d, x, t)]
        congruent(total(a + b, x, t), total(c + d, x, t)) by {
        assert(congruent(total(a, x, t), total(c, x, t)));
        assert(congruent(total(b, x, t), total(d, x, t)));
    }
}

/// The order in which two sequences are concatenated does not change the
/// meaning.
pub proof fn lemma_equivalent_commutes(a: Seq<Update>, b: Seq<Update>)
    ensures
        equivalent(a + b, b + a),
{
    lemma_total_concat(a, b);
    lemma_total_concat(b, a);
}

/// Every update of a consolidated sequence shares data and time with some
/// update of any sequence that means the same.
pub proof fn lemma_consolidated_keys_from(out: Seq<Update>, s: Seq<Update>, i: int)
    requires
        consolidated(out),
        equivalent(out, s),
        0 <= i < out.len(),
    ensures
        exists|j: int| 0 <= j < s.len() && same_key(#[trigger] s[j], out[i]),
{
    lemma_total_present(out, i);
    assert(congruent(total(out, out[i].data, out[i].time), total(s, out[i].data, out[i].time)));
    if !(exists|j: int| 0 <= j < s.len() && same_key(#[trigger] s[j], out[i])) {
        assert forall|j: int| 0 <= j < s.len() implies !((#[trigger] s[j]).data == out[i].data && s[j].time
            == out[i].time) by {
            assert(!same_key(s[j], out[i]));
        }
        lemma_total_absent(s, out[i].data, out[i].time);
        assert(out[i].diff != 0);
    }
}

/// `u` is one of the updates of `s`.
pub open spec fn occurs(s: Seq<Update>, u: Update) -> bool {
    exists|j: int| 0 <= j < s.len() && #[trigger] s[j] == u
}

/// Every update of a consolidated sequence occurs in any consolidated
/// sequence that means the same.
pub proof fn lemma_consolidated_member(a: Seq<Update>, b: Seq<Update>, i: int)
    requires
        consolidated(a),
        consolidated(b),
        equivalent(a, b),
        0 <= i < a.len(),
    ensures
        occurs(b, a[i]),
{
    lemma_consolidated_keys_from(a, b, i);
    let j = choose|j: int| 0 <= j < b.len() && same_key(#[trigger] b[j], a[i]);
    lemma_total_present(a, i);
    lemma_total_present(b, j);
    assert(congruent(total(a, a[i].data, a[i].time), total(b, a[i].data, a[i].time)));
    lemma_congruent_weights(a[i].diff, b[j].diff);
    assert(b[j] == a[i]);
}

/// Two sequences in strict order with the same updates are the same
/// sequence.
pub proof fn lemma_sorted_same_members(a: Seq<Update>, b: Seq<Update>)
    requires
        strictly_sorted(a),
        strictly_sorted(b),
        forall|i: int| 0 <= i < a.len() ==> occurs(b, #[trigger] a[i]),
        forall|j: int| 0 <= j < b.len() ==> occurs(a, #[trigger] b[j]),
    ensures
        a == b,
    decreases a.len(),
{
    if a.len() == 0 {
        if b.len() > 0 {
            assert(occurs(a, b[0]));
        }
        assert(a =~= b);
    } else {
        let x = a[a.len() - 1];
        assert(occurs(b, x));
        let j = choose|j: int| 0 <= j < b.len() && #[trigger] b[j] == x;
        let y = b[b.len() - 1];
        assert(occurs(a, y));
        let i = choose|i: int| 0 <= i < a.len() && #[trigger] a[i] == y;
        if i < a.len() - 1 {
            assert(key_lt(a[i], a[a.len() - 1]));
        }
        if j < b.len() - 1 {
            assert(key_lt(b[j], b[b.len() - 1]));
        }
        assert(i == a.len() - 1 && j == b.len() - 1);
        let a1 = a.drop_last();
        let b1 = b.drop_last();
        assert forall|k: int| 0 <= k < a1.len() implies occurs(b1, #[trigger] a1[k]) by {
            assert(occurs(b, a[k]));
            let l = choose|l: int| 0 <= l < b.len() && #[trigger] b[l] == a[k];
            assert(key_lt(a[k], a[a.len() - 1]));
            assert(l < b.len() - 1);
            assert(b1[l] == a1[k]);
        }
        assert forall|l: int| 0 <= l < b1.len() implies occurs(a1, #[trigger] b1[l]) by {
            assert(occurs(a, b[l]));
            let k = choose|k: int| 0 <= k < a.len() && #[trigger] a[k] == b[l];
            assert(key_lt(b[l], b[b.len() - 1]));
            assert(k < a.len() - 1);
            assert(a1[k] == b1[l]);
        }
        assert forall|p: int, q: int| 0 <= p < q < a1.len() implies key_lt(#[trigger] a1[p], #[trigger] a1[q]) by {
            assert(key_lt(a[p], a[q]));
        }
        assert forall|p: int, q: int| 0 <= p < q < b1.len() implies key_lt(#[trigger] b1[p], #[trigger] b1[q]) by {
            assert(key_lt(b[p], b[q]));
        }
        lemma_sorted_same_members(a1, b1);
        assert(a =~= a1.push(x));
        assert(b =~= b1.push(y));
    }
}

/// A meaning has one consolidated sequence: two consolidated sequences
/// that mean the same are the same sequence.
pub proof fn lemma_consolidated_unique(a: Seq<Update>, b: Seq<Update>)
    requires
        consolidated(a),
        consolidated(b),
        equivalent(a, b),
    ensures
        a == b,
{
    lemma_equivalent_sym(a, b);
    assert forall|i: int| 0 <= i < a.len() implies occurs(b, #[trigger] a[i]) by {
        lemma_consolidated_member(a, b, i);
    }
    assert forall|j: int| 0 <= j < b.len() implies occurs(a, #[trigger] b[j]) by {
        lemma_consolidated_member(b, a, j);
    }
    lemma_sorted_same_members(a, b);
}

/// The consolidated sequence that means what `s` means: its updates in
/// order, those that share data and time added up, sums of zero left out.
pub open spec fn canonical(s: Seq<Update>) -> Seq<Update> {
    choose|m: Seq<Update>| consolidated(m) && equivalent(m, s)
}

/// A consolidated sequence that means what `s` means is the canonical form
/// of `s`.
pub proof fn lemma_canonical(m: Seq<Update>, s: Seq<Update>)
    requires
        consolidated(m),
        equivalent(m, s),
    ensures
        m == canonical(s),
{
    let c = canonical(s);
    assert(consolidated(c) && equivalent(c, s));
    lemma_equivalent_sym(c, s);
    lemma_equivalent_trans(m, s, c);
    lemma_consolidated_unique(m, c);
}

/// What means what two sequences mean together means what their
/// concatenation means.
pub proof fn lemma_combines_concat(out: Seq<Update>, a: Seq<Update>, b: Seq<Update>)
    requires
        combines(out, a, b),
    ensures
        equivalent(out, a + b),
{
    lemma_total_concat(a, b);
    assert forall|d: u64, t: u64|
        #![trigger total(out, d, t)]
        #![trigger total(a + b, d, t)]
        congruent(total(out, d, t), total(a + b, d, t)) by {
        assert(congruent(total(out, d, t), total(a, d, t) + total(b, d, t)));
    }
}

/// Folds one more update into a consolidated run whose updates all come
/// before it or share its data and time.
///
/// An update that shares data and time with the last one is added to it, and
/// the sum leaves the run if it is zero; any other update is appended unless
/// its difference is zero.
pub fn absorb(out: &mut Vec<Update>, u: Update)
    requires
        consolidated(old(out)@),
        forall|i: int| 0 <= i < old(out)@.len() ==> key_le(#[trigger] old(out)@[i], u),
    ensures
        consolidated(final(out)@),
        forall|i: int| 0 <= i < final(out)@.len() ==> key_le(#[trigger] final(out)@[i], u),
        forall|d: u64, t: u64| #![trigger total(final(out)@, d, t)]
            congruent(total(final(out)@, d, t), total(old(out)@, d, t) + contribution(u, d, t)),
        final(out)@.len() <= old(out)@.len() + 1,
        forall|i: int|
            0 <= i < final(out)@.len() ==> (#[trigger] final(out)@[i]).time == u.time || (i < old(out)@.len()
                && final(out)@[i].time == old(out)@[i].time),
{
    let n = out.len();
    if n > 0 && key_equal(&out[n - 1], &u) {
        let last = out[n - 1];
        let mut sum: i64 = last.diff;
        sum.plus_equals(&u.diff);
        out.pop();
        let ghost base = out@;
        proof {
            assert(old(out)@ =~= base.push(last));
            lemma_total_push(base, last);
            assert forall|i: int, j: int| 0 <= i < j < base.len() implies key_lt(
                #[trigger] base[i],
                #[trigger] base[j],
            ) by {
                assert(key_lt(old(out)@[i], old(out)@[j]));
            }
            assert forall|i: int| 0 <= i < base.len() implies (#[trigger] base[i]).diff != 0 by {
                assert(old(out)@[i].diff != 0);
            }
        }
        if !sum.is_zero() {
            let merged = Update { data: u.data, time: u.time, diff: sum };
            out.push(merged);
            proof {
                lemma_total_push(base, merged);
                assert forall|i: int, j: int| 0 <= i < j < out@.len() implies key_lt(
                    #[trigger] out@[i],
                    #[trigger] out@[j],
                ) by {
                    if j < base.len() {
                        assert(key_lt(old(out)@[i], old(out)@[j]));
                    } else {
                        assert(key_lt(old(out)@[i], old(out)@[n - 1]));
                    }
                }
                assert forall|i: int| 0 <= i < out@.len() implies key_le(#[trigger] out@[i], u) by {
                    if i < base.len() {
                        assert(key_le(old(out)@[i], u));
                    }
                }
            }
        } else {
            proof {
                assert forall|i: int| 0 <= i < out@.len() implies key_le(#[trigger] out@[i], u) by {
                    assert(key_le(old(out)@[i], u));
                }
            }
        }
    } else if !u.diff.is_zero() {
        out.push(u);
        proof {
            lemma_total_push(old(out)@, u);
            assert forall|i: int, j: int| 0 <= i < j < out@.len() implies key_lt(
                #[trigger] out@[i],
                #[trigger] out@[j],
            ) by {
                if j < n {
                    assert(key_lt(old(out)@[i], old(out)@[j]));
                } else {
                    assert(key_le(old(out)@[i], u));
                    if n > 0 {
                        assert(key_le(old(out)@[i], old(out)@[n - 1]) || i == n - 1) by {
                            if i < n - 1 {
                                assert(key_lt(old(out)@[i], old(out)@[n - 1]));
                            }
                        }
                        assert(key_le(old(out)@[n - 1], u));
                    }
                }
            }
            assert forall|i: int| 0 <= i < out@.len() implies key_le(#[trigger] out@[i], u) by {
                if i < n {
                    assert(key_le(old(out)@[i], u));
                }
            }
        }
    }
}

} // verus!
