//! Times and frontiers.
//!
//! Times are `u64` values under their natural order, a lattice whose join is
//! the maximum and whose least element is zero. A frontier is a list of
//! times; a time is in advance of a frontier when some element of the
//! frontier is less than or equal to it.

use vstd::prelude::*;

verus! {

/// The least time.
pub fn minimum() -> (t: u64)
    ensures
        t == 0,
{
    0
}

/// An owned copy of a borrowed time.
pub fn into_owned(time: &u64) -> (t: u64)
    ensures
        t == *time,
{
    *time
}

/// The order on times.
pub fn less_equal(a: u64, b: u64) -> (r: bool)
    ensures
        r == (a <= b),
{
    a <= b
}

/// The least upper bound of two times.
pub open spec fn join_spec(a: u64, b: u64) -> u64 {
    if a <= b {
        b
    } else {
        a
    }
}

/// The least upper bound of two times.
pub fn join(a: u64, b: u64) -> (t: u64)
    ensures
        t == join_spec(a, b),
{
    if a <= b {
        b
    } else {
        a
    }
}

/// Some element of `frontier` is less than or equal to `time`.
pub open spec fn in_advance_of(frontier: Seq<u64>, time: u64) -> bool {
    exists|i: int| 0 <= i < frontier.len() && #[trigger] frontier[i] <= time
}

/// Every element of `other` is in advance of `frontier`.
pub open spec fn frontier_le(frontier: Seq<u64>, other: Seq<u64>) -> bool {
    forall|j: int| 0 <= j < other.len() ==> in_advance_of(frontier, #[trigger] other[j])
}

/// Every element of `frontier` is less than or equal to `time`.
pub open spec fn beyond(frontier: Seq<u64>, time: u64) -> bool {
    forall|i: int| 0 <= i < frontier.len() ==> #[trigger] frontier[i] <= time
}

/// The join of `time` with every element of `frontier`.
pub open spec fn advance_spec(time: u64, frontier: Seq<u64>) -> u64
    decreases frontier.len(),
{
    if frontier.len() == 0 {
        time
    } else {
        join_spec(advance_spec(time, frontier.drop_last()), frontier.last())
    }
}

/// Is `time` in advance of `frontier`?
pub fn frontier_less_equal(frontier: &[u64], time: u64) -> (r: bool)
    ensures
        r == in_advance_of(frontier@, time),
{
    let mut i: usize = 0;
    while i < frontier.len()
        invariant
            i <= frontier.len(),
            forall|k: int| 0 <= k < i ==> !(#[trigger] frontier@[k] <= time),
        decreases frontier.len() - i,
    {
        if less_equal(frontier[i], time) {
            return true;
        }
        i += 1;
    }
    false
}

/// Is every element of `other` in advance of `frontier`?
pub fn frontier_dominates(frontier: &[u64], other: &[u64]) -> (r: bool)
    ensures
        r == frontier_le(frontier@, other@),
{
    let mut j: usize = 0;
    while j < other.len()
        invariant
            j <= other.len(),
            forall|k: int| 0 <= k < j ==> in_advance_of(frontier@, #[trigger] other@[k]),
        decreases other.len() - j,
    {
        if !frontier_less_equal(frontier, other[j]) {
            return false;
        }
        j += 1;
    }
    true
}

/// Are the two frontiers the same list of times?
pub fn frontier_eq(a: &[u64], b: &[u64]) -> (r: bool)
    ensures
        r == (a@ == b@),
{
    if a.len() != b.len() {
        return false;
    }
    let mut i: usize = 0;
    while i < a.len()
        invariant
            i <= a.len(),
            a.len() == b.len(),
            forall|k: int| 0 <= k < i ==> a@[k] == b@[k],
        decreases a.len() - i,
    {
        if a[i] != b[i] {
            return false;
        }
        i += 1;
    }
    assert(a@ =~= b@);
    true
}

/// A copy of the frontier.
pub fn frontier_to_vec(frontier: &[u64]) -> (copy: Vec<u64>)
    ensures
        copy@ == frontier@,
{
    let mut copy: Vec<u64> = Vec::new();
    let mut i: usize = 0;
    while i < frontier.len()
        invariant
            i <= frontier.len(),
            copy@ == frontier@.take(i as int),
        decreases frontier.len() - i,
    {
        copy.push(frontier[i]);
        i += 1;
        proof {
            assert(copy@ =~= frontier@.take(i as int));
        }
    }
    proof {
        assert(frontier@.take(i as int) =~= frontier@);
    }
    copy
}

/// Advances `time` to `frontier`: joins it with every element.
pub fn advance(time: u64, frontier: &[u64]) -> (t: u64)
    ensures
        t == advance_spec(time, frontier@),
{
    let mut t: u64 = time;
    let mut i: usize = 0;
    while i < frontier.len()
        invariant
            i <= frontier.len(),
            t == advance_spec(time, frontier@.take(i as int)),
        decreases frontier.len() - i,
    {
        proof {
            assert(frontier@.take(i + 1).drop_last() =~= frontier@.take(i as int));
        }
        t = join(t, frontier[i]);
        i += 1;
    }
    proof {
        assert(frontier@.take(i as int) =~= frontier@);
    }
    t
}

/// The join with a time is an upper bound of both.
pub proof fn lemma_join_upper_bound(a: u64, b: u64)
    ensures
        a <= join_spec(a, b),
        b <= join_spec(a, b),
{
}

/// The join is below every common upper bound.
pub proof fn lemma_join_least(a: u64, b: u64, c: u64)
    requires
        a <= c,
        b <= c,
    ensures
        join_spec(a, b) <= c,
{
}

/// An advanced time is at or after the time it came from and every element
/// of the frontier: joining it with such an element changes nothing.
pub proof fn lemma_advance_reaches(time: u64, frontier: Seq<u64>)
    ensures
        time <= advance_spec(time, frontier),
        beyond(frontier, advance_spec(time, frontier)),
        forall|i: int| 0 <= i < frontier.len() ==> join_spec(#[trigger] frontier[i], advance_spec(time, frontier)) == advance_spec(time, frontier),
    decreases frontier.len(),
{
    if frontier.len() > 0 {
        lemma_advance_reaches(time, frontier.drop_last());
        assert forall|i: int| 0 <= i < frontier.len() implies #[trigger] frontier[i] <= advance_spec(time, frontier) by {
            if i < frontier.len() - 1 {
                assert(frontier.drop_last()[i] == frontier[i]);
            }
        }
    }
}

/// Advancing keeps the order of times.
pub proof fn lemma_advance_monotone(a: u64, b: u64, frontier: Seq<u64>)
    requires
        a <= b,
    ensures
        advance_spec(a, frontier) <= advance_spec(b, frontier),
    decreases frontier.len(),
{
    if frontier.len() > 0 {
        lemma_advance_monotone(a, b, frontier.drop_last());
    }
}

/// A time that is already beyond the frontier is left as it is.
pub proof fn lemma_advance_fixed(time: u64, frontier: Seq<u64>)
    requires
        beyond(frontier, time),
    ensures
        advance_spec(time, frontier) == time,
    decreases frontier.len(),
{
    if frontier.len() > 0 {
        assert forall|i: int| 0 <= i < frontier.drop_last().len() implies #[trigger] frontier.drop_last()[i] <= time by {
            assert(frontier.drop_last()[i] == frontier[i]);
        }
        lemma_advance_fixed(time, frontier.drop_last());
        assert(frontier.last() == frontier[frontier.len() - 1]);
    }
}

/// Advancing twice by the same frontier is advancing once.
pub proof fn lemma_advance_idempotent(time: u64, frontier: Seq<u64>)
    ensures
        advance_spec(advance_spec(time, frontier), frontier) == advance_spec(time, frontier),
{
    lemma_advance_reaches(time, frontier);
    lemma_advance_fixed(advance_spec(time, frontier), frontier);
}

/// For a query time beyond the frontier, a time is at or before the query
/// exactly if its advanced form is.
pub proof fn lemma_advance_query(time: u64, frontier: Seq<u64>, query: u64)
    requires
        beyond(frontier, query),
    ensures
        (advance_spec(time, frontier) <= query) == (time <= query),
    decreases frontier.len(),
{
    if frontier.len() > 0 {
        assert forall|i: int| 0 <= i < frontier.drop_last().len() implies #[trigger] frontier.drop_last()[i] <= query by {
            assert(frontier.drop_last()[i] == frontier[i]);
        }
        lemma_advance_query(time, frontier.drop_last(), query);
        assert(frontier.last() == frontier[frontier.len() - 1]);
    }
}

} // verus!
