//! Antichains of times, as the dataflow runtime keeps them.
//!
//! An `Antichain` holds the least elements of what was put into it. The type
//! lives in another crate, so what its methods do is stated here and not
//! proved. For `u64` times the runtime's order is `<=`.

use vstd::prelude::*;
use timely::progress::frontier::Antichain;
use crate::lattice::in_advance_of;
use crate::lattice::into_owned;

verus! {

#[verifier::external_type_specification]
#[verifier::external_body]
#[verifier::reject_recursive_types(T)]
pub struct ExAntichain<T>(Antichain<T>);

/// The elements of an antichain, in the order in which it holds them.
pub uninterp spec fn antichain_elements(frontier: Antichain<u64>) -> Seq<u64>;

/// The elements that are not at or after `time`, in their order.
pub open spec fn without_later(elements: Seq<u64>, time: u64) -> Seq<u64>
    decreases elements.len(),
{
    if elements.len() == 0 {
        elements
    } else if time <= elements.last() {
        without_later(elements.drop_last(), time)
    } else {
        without_later(elements.drop_last(), time).push(elements.last())
    }
}

/// The elements after `time` was put in: unchanged where one of them is at
/// or before `time`; else those not at or after `time`, and then `time`.
pub open spec fn inserted(elements: Seq<u64>, time: u64) -> Seq<u64> {
    if in_advance_of(elements, time) {
        elements
    } else {
        without_later(elements, time).push(time)
    }
}

/// `Antichain::new`: an antichain without elements.
#[verifier::external_body]
pub(crate) fn antichain_new() -> (frontier: Antichain<u64>)
    ensures
        antichain_elements(frontier) == Seq::<u64>::empty(),
{
    Antichain::new()
}

/// `AntichainRef::less_equal`, on the borrowed form of the antichain: is
/// some element less than or equal to `time`?
#[verifier::external_body]
pub(crate) fn antichain_less_equal(frontier: &Antichain<u64>, time: &u64) -> (r: bool)
    ensures
        r == in_advance_of(antichain_elements(*frontier), *time),
{
    frontier.borrow().less_equal(time)
}

/// `Antichain::insert_with`: puts `time` in unless an element is less than
/// or equal to it, and removes the elements that `time` is less than or
/// equal to. Returns whether `time` was put in.
#[verifier::external_body]
pub(crate) fn antichain_insert(frontier: &mut Antichain<u64>, time: &u64) -> (r: bool)
    ensures
        antichain_elements(*final(frontier)) == inserted(antichain_elements(*old(frontier)), *time),
        r == !in_advance_of(antichain_elements(*old(frontier)), *time),
{
    frontier.insert_with(time, |t| into_owned(t))
}

/// `Antichain::elements`: the elements, copied into a vector.
#[verifier::external_body]
pub(crate) fn antichain_to_vec(frontier: &Antichain<u64>) -> (elements: Vec<u64>)
    ensures
        elements@ == antichain_elements(*frontier),
{
    frontier.elements().to_vec()
}

/// What is left without the later elements was there before.
pub proof fn lemma_without_later(elements: Seq<u64>, time: u64)
    ensures
        forall|i: int| 0 <= i < without_later(elements, time).len() ==> (#[trigger] without_later(elements, time)[i])
            < time,
        forall|x: u64| x < time && in_advance_of(elements, x) ==> in_advance_of(without_later(elements, time), x),
    decreases elements.len(),
{
    if elements.len() > 0 {
        let front = elements.drop_last();
        lemma_without_later(front, time);
        let kept = without_later(elements, time);
        assert forall|x: u64| x < time && in_advance_of(elements, x) implies in_advance_of(kept, x) by {
            let i = choose|i: int| 0 <= i < elements.len() && #[trigger] elements[i] <= x;
            if i < front.len() {
                assert(front[i] <= x);
                assert(in_advance_of(front, x));
                let j = choose|j: int| 0 <= j < without_later(front, time).len() && #[trigger] without_later(
                    front,
                    time,
                )[j] <= x;
                assert(kept[j] <= x);
            } else {
                assert(kept[kept.len() - 1] <= x);
            }
        }
    }
}

/// After a time was put in, it is in advance of the antichain, and so is
/// every time that was in advance of it before.
pub proof fn lemma_inserted_covers(elements: Seq<u64>, time: u64)
    ensures
        in_advance_of(inserted(elements, time), time),
        forall|x: u64| in_advance_of(elements, x) ==> in_advance_of(inserted(elements, time), x),
{
    let after = inserted(elements, time);
    if !in_advance_of(elements, time) {
        lemma_without_later(elements, time);
        assert(after[after.len() - 1] <= time);
        assert forall|x: u64| in_advance_of(elements, x) implies in_advance_of(after, x) by {
            if x < time {
                let j = choose|j: int| 0 <= j < without_later(elements, time).len() && #[trigger] without_later(
                    elements,
                    time,
                )[j] <= x;
                assert(after[j] <= x);
            } else {
                assert(after[after.len() - 1] <= x);
            }
        }
    }
}

} // verus!
