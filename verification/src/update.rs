//! Updates and their order.
//!
//! An update says that the weight of `data` changes by `diff` at `time`.
//! Updates are ordered by the pair of data and time; the difference plays no
//! part in the order.

use vstd::prelude::*;
use crate::lattice::beyond;
use crate::lattice::advance;
use crate::lattice::advance_spec;
use crate::lattice::lemma_advance_monotone;

verus! {

/// One change to a collection.
#[derive(Clone, Copy, Debug, PartialEq, Eq, Structural)]
pub struct Update {
    /// What changes.
    pub data: u64,
    /// When it changes.
    pub time: u64,
    /// By how much its weight changes.
    pub diff: i64,
}

/// `a` comes strictly before `b` in the order by data and time.
pub open spec fn key_lt(a: Update, b: Update) -> bool {
    a.data < b.data || (a.data == b.data && a.time < b.time)
}

/// `a` has the data and time of `b`.
pub open spec fn same_key(a: Update, b: Update) -> bool {
    a.data == b.data && a.time == b.time
}

/// `a` comes before `b` or has its data and time.
pub open spec fn key_le(a: Update, b: Update) -> bool {
    key_lt(a, b) || same_key(a, b)
}

/// The update with its time advanced to `since`.
pub open spec fn advance_update(u: Update, since: Seq<u64>) -> Update {
    Update { data: u.data, time: advance_spec(u.time, since), diff: u.diff }
}

/// The updates of `s`, each with its time advanced to `since`.
pub open spec fn advanced(s: Seq<Update>, since: Seq<u64>) -> Seq<Update> {
    Seq::new(s.len(), |i: int| advance_update(s[i], since))
}

/// Every time of `s` is at or after every element of `frontier`: joining it
/// with such an element changes nothing.
pub open spec fn times_beyond(s: Seq<Update>, frontier: Seq<u64>) -> bool {
    forall|i: int| 0 <= i < s.len() ==> beyond(frontier, (#[trigger] s[i]).time)
}

/// The updates are in order, equal keys allowed.
pub open spec fn sorted(s: Seq<Update>) -> bool {
    forall|i: int, j: int| 0 <= i < j < s.len() ==> key_le(#[trigger] s[i], #[trigger] s[j])
}

/// The updates are in order and no two share data and time.
pub open spec fn strictly_sorted(s: Seq<Update>) -> bool {
    forall|i: int, j: int| 0 <= i < j < s.len() ==> key_lt(#[trigger] s[i], #[trigger] s[j])
}

/// No update has the difference zero.
pub open spec fn nonzero(s: Seq<Update>) -> bool {
    forall|i: int| 0 <= i < s.len() ==> (#[trigger] s[i]).diff != 0
}

/// Does `a` come strictly before `b`?
pub fn key_less(a: &Update, b: &Update) -> (r: bool)
    ensures
        r == key_lt(*a, *b),
{
    a.data < b.data || (a.data == b.data && a.time < b.time)
}

/// Do `a` and `b` share data and time?
pub fn key_equal(a: &Update, b: &Update) -> (r: bool)
    ensures
        r == same_key(*a, *b),
{
    a.data == b.data && a.time == b.time
}

/// The update with its time joined with every element of `since`.
pub fn advance_by(u: &Update, since: &[u64]) -> (r: Update)
    ensures
        r == advance_update(*u, since@),
{
    Update { data: u.data, time: advance(u.time, since), diff: u.diff }
}

/// Of two updates, exactly one comes first or they share data and time.
pub proof fn lemma_key_trichotomy(a: Update, b: Update)
    ensures
        key_lt(a, b) || key_lt(b, a) || same_key(a, b),
        !(key_lt(a, b) && key_lt(b, a)),
        !(key_lt(a, b) && same_key(a, b)),
{
}

/// The order by data and time is transitive.
pub proof fn lemma_key_transitive(a: Update, b: Update, c: Update)
    ensures
        key_lt(a, b) && key_le(b, c) ==> key_lt(a, c),
        key_le(a, b) && key_lt(b, c) ==> key_lt(a, c),
        key_le(a, b) && key_le(b, c) ==> key_le(a, c),
{
}

/// Advancing keeps updates in order; it may make keys equal.
pub proof fn lemma_advance_keeps_order(a: Update, b: Update, since: Seq<u64>)
    requires
        key_le(a, b),
    ensures
        key_le(advance_update(a, since), advance_update(b, since)),
{
    if a.data == b.data {
        lemma_advance_monotone(a.time, b.time, since);
    }
}

/// Advancing a sorted sequence leaves it sorted.
pub proof fn lemma_advanced_sorted(s: Seq<Update>, since: Seq<u64>)
    requires
        sorted(s),
    ensures
        sorted(advanced(s, since)),
{
    assert forall|i: int, j: int| 0 <= i < j < s.len() implies key_le(
        #[trigger] advanced(s, since)[i],
        #[trigger] advanced(s, since)[j],
    ) by {
        lemma_advance_keeps_order(s[i], s[j], since);
    }
}

/// Advancing to the empty frontier changes nothing.
pub proof fn lemma_advanced_nowhere(s: Seq<Update>)
    ensures
        advanced(s, Seq::empty()) == s,
{
    assert(advanced(s, Seq::empty()) =~= s);
}

/// Advancing to the least time changes nothing.
pub proof fn lemma_advanced_by_minimum(s: Seq<Update>)
    ensures
        advanced(s, seq![0u64]) == s,
{
    assert forall|i: int| 0 <= i < s.len() implies #[trigger] advanced(s, seq![0u64])[i] == s[i] by {
        let f = seq![0u64];
        assert(f.drop_last() =~= Seq::<u64>::empty());
        assert(advance_spec(s[i].time, f.drop_last()) == s[i].time);
        assert(advance_spec(s[i].time, f) == s[i].time);
    }
    assert(advanced(s, seq![0u64]) =~= s);
}

} // verus!
