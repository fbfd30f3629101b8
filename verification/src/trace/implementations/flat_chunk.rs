//! Chunks of updates, stored in a flat stack.
//!
//! A chunk holds its updates in a `FlatStack` over a region of integer
//! triples. The stack lives in another crate, so what it does is stated here
//! and not proved. Beside the stack a chunk keeps the number of updates it is
//! meant to hold: the batcher fills a chunk up to that number and then starts
//! the next one.

use vstd::prelude::*;
use timely::container::flatcontainer::impls::tuple::TupleABCRegion;
use timely::container::flatcontainer::FlatStack;
use timely::container::flatcontainer::MirrorRegion;
use crate::update::Update;

verus! {

/// A flat stack of triples of data, time and difference.
#[verifier::external_body]
pub struct UpdateStack {
    stack: FlatStack<TupleABCRegion<MirrorRegion<u64>, MirrorRegion<u64>, MirrorRegion<i64>>>,
}

/// The triples that a stack holds, oldest first.
pub uninterp spec fn stack_items(stack: UpdateStack) -> Seq<(u64, u64, i64)>;

/// `FlatStack::with_capacity`: a stack without items, with room set aside
/// for `capacity` of them.
#[verifier::external_body]
fn stack_with_capacity(capacity: usize) -> (stack: UpdateStack)
    ensures
        stack_items(stack) == Seq::<(u64, u64, i64)>::empty(),
{
    UpdateStack { stack: FlatStack::with_capacity(capacity) }
}

/// `FlatStack::default`: a stack without items.
#[verifier::external_body]
fn stack_default() -> (stack: UpdateStack)
    ensures
        stack_items(stack) == Seq::<(u64, u64, i64)>::empty(),
{
    UpdateStack { stack: FlatStack::default() }
}

/// `FlatStack::len`: the number of items.
#[verifier::external_body]
fn stack_len(stack: &UpdateStack) -> (n: usize)
    ensures
        n == stack_items(*stack).len(),
{
    stack.stack.len()
}

/// `FlatStack::copy`: puts one more item behind the others.
#[verifier::external_body]
fn stack_copy(stack: &mut UpdateStack, item: (u64, u64, i64))
    ensures
        stack_items(*final(stack)) == stack_items(*old(stack)).push(item),
{
    stack.stack.copy(item)
}

/// `FlatStack::get`: the item at `offset`, which must be below the length.
#[verifier::external_body]
fn stack_get(stack: &UpdateStack, offset: usize) -> (item: (u64, u64, i64))
    requires
        offset < stack_items(*stack).len(),
    ensures
        item == stack_items(*stack)[offset as int],
{
    stack.stack.get(offset)
}

/// `FlatStack::clear`: removes every item.
#[verifier::external_body]
fn stack_clear(stack: &mut UpdateStack)
    ensures
        stack_items(*final(stack)) == Seq::<(u64, u64, i64)>::empty(),
{
    stack.stack.clear()
}

/// How the items of a chunk are taken apart.
pub trait MergerChunk {
    /// The update that an item stands for.
    spec fn parts(item: (u64, u64, i64)) -> Update;

    /// Splits an item into its data, its time and its difference.
    fn into_parts(item: (u64, u64, i64)) -> (u: Update)
        ensures
            u == Self::parts(item),
    ;
}

impl MergerChunk for UpdateStack {
    open spec fn parts(item: (u64, u64, i64)) -> Update {
        Update { data: item.0, time: item.1, diff: item.2 }
    }

    fn into_parts(item: (u64, u64, i64)) -> (u: Update) {
        Update { data: item.0, time: item.1, diff: item.2 }
    }
}

/// A run of updates with the number of updates it is meant to hold.
pub struct Chunk {
    stack: UpdateStack,
    capacity: usize,
}

impl View for Chunk {
    type V = Seq<Update>;

    closed spec fn view(&self) -> Seq<Update> {
        Seq::new(stack_items(self.stack).len(), |i: int| UpdateStack::parts(stack_items(self.stack)[i]))
    }
}

impl Chunk {
    #[verifier::type_invariant]
    spec fn holds_no_more_than_capacity(self) -> bool {
        stack_items(self.stack).len() <= self.capacity
    }

    /// The number of updates the chunk is meant to hold.
    pub closed spec fn spec_capacity(&self) -> nat {
        self.capacity as nat
    }

    /// An empty chunk meant to hold `capacity` updates.
    pub fn with_capacity(capacity: usize) -> (chunk: Chunk)
        ensures
            chunk@.len() == 0,
            chunk.spec_capacity() == capacity,
    {
        Chunk { stack: stack_with_capacity(capacity), capacity }
    }

    /// An empty chunk meant to hold nothing.
    pub fn new() -> (chunk: Chunk)
        ensures
            chunk@.len() == 0,
            chunk.spec_capacity() == 0,
    {
        Chunk { stack: stack_default(), capacity: 0 }
    }

    /// The number of updates in the chunk.
    pub fn len(&self) -> (n: usize)
        ensures
            n == self@.len(),
            n <= self.spec_capacity(),
    {
        proof {
            use_type_invariant(self);
        }
        stack_len(&self.stack)
    }

    /// Does the chunk hold no update?
    pub fn is_empty(&self) -> (r: bool)
        ensures
            r == (self@.len() == 0),
    {
        stack_len(&self.stack) == 0
    }

    /// The number of updates the chunk is meant to hold.
    pub fn capacity(&self) -> (n: usize)
        ensures
            n == self.spec_capacity(),
            self@.len() <= n,
    {
        proof {
            use_type_invariant(self);
        }
        self.capacity
    }

    /// The update at `offset`.
    pub fn get(&self, offset: usize) -> (u: Update)
        requires
            offset < self@.len(),
        ensures
            u == self@[offset as int],
    {
        UpdateStack::into_parts(stack_get(&self.stack, offset))
    }

    /// Puts `u` behind the updates of the chunk. A chunk that was full is
    /// from then on meant to hold one update more.
    pub fn copy(&mut self, u: Update)
        ensures
            final(self)@ == old(self)@.push(u),
            final(self).spec_capacity() == if old(self)@.len() < old(self).spec_capacity() {
                old(self).spec_capacity()
            } else {
                old(self).spec_capacity() + 1
            },
    {
        proof {
            use_type_invariant(&*self);
        }
        let ghost before = stack_items(self.stack);
        let mut stack = stack_default();
        core::mem::swap(&mut stack, &mut self.stack);
        stack_copy(&mut stack, (u.data, u.time, u.diff));
        let n = stack_len(&stack);
        let capacity = if self.capacity < n { n } else { self.capacity };
        proof {
            assert(Seq::new(stack_items(stack).len(), |i: int| UpdateStack::parts(stack_items(stack)[i]))
                =~= Seq::new(before.len(), |i: int| UpdateStack::parts(before[i])).push(u));
        }
        *self = Chunk { stack, capacity };
    }

    /// Removes every update; the capacity stays.
    pub fn clear(&mut self)
        ensures
            final(self)@.len() == 0,
            final(self).spec_capacity() == old(self).spec_capacity(),
    {
        let mut stack = stack_default();
        core::mem::swap(&mut stack, &mut self.stack);
        stack_clear(&mut stack);
        *self = Chunk { stack, capacity: self.capacity };
    }
}

} // verus!
