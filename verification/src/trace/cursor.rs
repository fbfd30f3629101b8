//! Cursors: forward walkers over one batch, and over several batches at
//! once.

use vstd::prelude::*;
use crate::consolidation::combines;
use crate::consolidation::consolidated;
use crate::consolidation::contribution;
use crate::consolidation::equivalent;
use crate::consolidation::lemma_single_total;
use crate::consolidation::lemma_total_concat;
use crate::consolidation::lemma_total_push;
use crate::consolidation::total;
use crate::difference::congruent;
use crate::difference::lemma_plus_congruent;
use crate::difference::Semigroup;
use crate::lattice::frontier_to_vec;
use crate::trace::batch::Batch;
use crate::update::advance_by;
use crate::update::advance_update;
use crate::update::advanced;
use crate::update::key_equal;
use crate::update::key_le;
use crate::update::key_less;
use crate::update::key_lt;
use crate::update::lemma_advance_keeps_order;
use crate::update::lemma_key_transitive;
use crate::update::same_key;
use crate::update::Update;

verus! {

/// A position in a batch.
pub struct Cursor {
    pos: usize,
}

impl View for Cursor {
    type V = nat;

    closed spec fn view(&self) -> nat {
        self.pos as nat
    }
}

impl Cursor {
    /// A cursor at the first update of a batch.
    pub fn new() -> (cursor: Cursor)
        ensures
            cursor@ == 0,
    {
        Cursor { pos: 0 }
    }

    /// Is the cursor at an update, and not behind the last?
    pub fn key_valid(&self, storage: &Batch) -> (r: bool)
        ensures
            r == (self@ < storage@.updates.len()),
    {
        self.pos < storage.len()
    }

    /// The update at the cursor.
    pub fn update(&self, storage: &Batch) -> (u: Update)
        requires
            self@ < storage@.updates.len(),
        ensures
            u == storage@.updates[self@ as int],
    {
        storage.updates()[self.pos]
    }

    /// The data and the time of the update at the cursor.
    pub fn key(&self, storage: &Batch) -> (key: (u64, u64))
        requires
            self@ < storage@.updates.len(),
        ensures
            key == (storage@.updates[self@ as int].data, storage@.updates[self@ as int].time),
    {
        let u = storage.updates()[self.pos];
        (u.data, u.time)
    }

    /// The difference of the update at the cursor.
    pub fn diff(&self, storage: &Batch) -> (diff: i64)
        requires
            self@ < storage@.updates.len(),
        ensures
            diff == storage@.updates[self@ as int].diff,
    {
        storage.updates()[self.pos].diff
    }

    /// Moves to the next update; a cursor behind the last update stays.
    pub fn step_key(&mut self, storage: &Batch)
        ensures
            final(self)@ == if old(self)@ < storage@.updates.len() {
                old(self)@ + 1
            } else {
                old(self)@
            },
    {
        if self.pos < storage.len() {
            self.pos = self.pos + 1;
        }
    }

    /// Moves forward to the first update at or after the given data and
    /// time; behind the last update where there is none. The number of steps
    /// is logarithmic in the number of updates passed over.
    pub fn seek_key(&mut self, storage: &Batch, data: u64, time: u64)
        ensures
            old(self)@ <= final(self)@,
            final(self)@ <= storage@.updates.len() || final(self)@ == old(self)@,
            forall|i: int|
                old(self)@ <= i < final(self)@ ==> key_lt(#[trigger] storage@.updates[i], Update { data, time, diff: 0 }),
            final(self)@ < storage@.updates.len() ==> !key_lt(
                storage@.updates[final(self)@ as int],
                Update { data, time, diff: 0 },
            ),
    {
        let updates = storage.updates();
        let target = Update { data, time, diff: 0 };
        if self.pos >= updates.len() {
            return ;
        }
        let mut lo: usize = self.pos;
        let mut hi: usize = updates.len();
        while lo < hi
            invariant
                self.pos <= lo <= hi <= updates@.len(),
                consolidated(updates@),
                forall|i: int| self.pos <= i < lo ==> key_lt(#[trigger] updates@[i], target),
                forall|i: int| hi <= i < updates@.len() ==> !key_lt(#[trigger] updates@[i], target),
            decreases hi - lo,
        {
            let mid = lo + (hi - lo) / 2;
            if key_less(&updates[mid], &target) {
                proof {
                    assert forall|i: int| self.pos <= i < mid + 1 implies key_lt(#[trigger] updates@[i], target) by {
                        if i < mid {
                            assert(key_lt(updates@[i], updates@[mid as int]));
                        }
                    }
                }
                lo = mid + 1;
            } else {
                proof {
                    assert forall|i: int| mid <= i < updates@.len() implies !key_lt(#[trigger] updates@[i], target) by {
                        if mid < i {
                            assert(key_lt(updates@[mid as int], updates@[i]));
                        }
                    }
                }
                hi = mid;
            }
        }
        self.pos = lo;
    }

    /// Moves back to the first update.
    pub fn rewind_keys(&mut self)
        ensures
            final(self)@ == 0,
    {
        self.pos = 0;
    }
}

/// The updates of all batches, one batch after the other.
pub open spec fn concat_updates(storage: Seq<Batch>) -> Seq<Update>
    decreases storage.len(),
{
    if storage.len() == 0 {
        Seq::empty()
    } else {
        concat_updates(storage.drop_last()) + storage.last()@.updates
    }
}

/// What the first `n` cursors have still before them, with times advanced
/// to `since`.
spec fn rest_from(storage: Seq<Batch>, cursors: Seq<Cursor>, since: Seq<u64>, n: int) -> Seq<Update>
    decreases n,
{
    if n <= 0 {
        Seq::empty()
    } else {
        rest_from(storage, cursors, since, n - 1) + advanced(
            storage[n - 1]@.updates.skip(cursors[n - 1]@ as int),
            since,
        )
    }
}

/// The number of updates that the first `n` cursors have still before
/// them.
spec fn left(storage: Seq<Batch>, cursors: Seq<Cursor>, n: int) -> int
    decreases n,
{
    if n <= 0 {
        0
    } else {
        left(storage, cursors, n - 1) + (storage[n - 1]@.updates.len() - cursors[n - 1]@)
    }
}

/// Every cursor is within its batch.
spec fn within(storage: Seq<Batch>, cursors: Seq<Cursor>) -> bool {
    &&& cursors.len() == storage.len()
    &&& forall|i: int| 0 <= i < cursors.len() ==> (#[trigger] cursors[i])@ <= storage[i]@.updates.len()
}

/// The updates of every batch are consolidated.
spec fn all_consolidated(storage: Seq<Batch>) -> bool {
    forall|i: int| 0 <= i < storage.len() ==> consolidated(#[trigger] storage[i]@.updates)
}

/// `v` comes strictly before every update that a cursor has still before
/// it.
spec fn before_all(storage: Seq<Batch>, cursors: Seq<Cursor>, since: Seq<u64>, v: Update) -> bool {
    forall|i: int, j: int|
        0 <= i < cursors.len() && cursors[i]@ <= j < storage[i]@.updates.len() ==> key_lt(
            v,
            advance_update(#[trigger] storage[i]@.updates[j], since),
        )
}

/// `v` comes before the update at each cursor, or shares its data and
/// time.
spec fn at_most_heads(storage: Seq<Batch>, cursors: Seq<Cursor>, since: Seq<u64>, v: Update) -> bool {
    forall|i: int|
        0 <= i < cursors.len() && (#[trigger] cursors[i])@ < storage[i]@.updates.len() ==> key_le(
            v,
            advance_update(storage[i]@.updates[cursors[i]@ as int], since),
        )
}

proof fn lemma_left_nonnegative(storage: Seq<Batch>, cursors: Seq<Cursor>, n: int)
    requires
        within(storage, cursors),
        n <= cursors.len(),
    ensures
        left(storage, cursors, n) >= 0,
    decreases n,
{
    if n > 0 {
        lemma_left_nonnegative(storage, cursors, n - 1);
    }
}

/// Where all cursors are behind their last update, nothing is left.
proof fn lemma_rest_exhausted(storage: Seq<Batch>, cursors: Seq<Cursor>, since: Seq<u64>, n: int)
    requires
        within(storage, cursors),
        0 <= n <= cursors.len(),
        forall|i: int| 0 <= i < cursors.len() ==> (#[trigger] cursors[i])@ >= storage[i]@.updates.len(),
    ensures
        rest_from(storage, cursors, since, n) == Seq::<Update>::empty(),
    decreases n,
{
    if n > 0 {
        lemma_rest_exhausted(storage, cursors, since, n - 1);
        assert(cursors[n - 1]@ >= storage[n - 1]@.updates.len());
        assert(advanced(storage[n - 1]@.updates.skip(cursors[n - 1]@ as int), since) =~= Seq::<Update>::empty());
        assert(rest_from(storage, cursors, since, n) =~= Seq::<Update>::empty());
    }
}

/// Moving cursor `j` over one update takes the advanced update out of what
/// is left.
proof fn lemma_rest_step(
    storage: Seq<Batch>,
    before: Seq<Cursor>,
    after: Seq<Cursor>,
    since: Seq<u64>,
    j: int,
    n: int,
)
    requires
        within(storage, before),
        after.len() == before.len(),
        0 <= j < before.len(),
        before[j]@ < storage[j]@.updates.len(),
        after[j]@ == before[j]@ + 1,
        forall|i: int| 0 <= i < before.len() && i != j ==> (#[trigger] after[i])@ == before[i]@,
        0 <= n <= before.len(),
    ensures
        forall|d: u64, t: u64| #[trigger]
            total(rest_from(storage, before, since, n), d, t) == total(rest_from(storage, after, since, n), d, t) + (
            if j < n {
                contribution(advance_update(storage[j]@.updates[before[j]@ as int], since), d, t)
            } else {
                0
            }),
        left(storage, before, n) == left(storage, after, n) + (if j < n {
            1int
        } else {
            0int
        }),
    decreases n,
{
    if n == 0 {
    } else {
        lemma_rest_step(storage, before, after, since, j, n - 1);
        let prior_b = rest_from(storage, before, since, n - 1);
        let prior_a = rest_from(storage, after, since, n - 1);
        let last_b = advanced(storage[n - 1]@.updates.skip(before[n - 1]@ as int), since);
        let last_a = advanced(storage[n - 1]@.updates.skip(after[n - 1]@ as int), since);
        lemma_total_concat(prior_b, last_b);
        lemma_total_concat(prior_a, last_a);
        if j == n - 1 {
            let u = advance_update(storage[j]@.updates[before[j]@ as int], since);
            assert(last_b =~= seq![u] + last_a);
            lemma_total_concat(seq![u], last_a);
            assert(seq![u] =~= Seq::<Update>::empty().push(u));
            lemma_total_push(Seq::<Update>::empty(), u);
            assert forall|d: u64, t: u64| total(Seq::<Update>::empty(), d, t) == 0 by {}
        } else {
            assert(after[n - 1]@ == before[n - 1]@);
        }
    }
}

/// What the cursors at the start of the batches have before them.
proof fn lemma_rest_start(storage: Seq<Batch>, cursors: Seq<Cursor>, since: Seq<u64>, n: int)
    requires
        cursors.len() == storage.len(),
        0 <= n <= storage.len(),
        forall|i: int| 0 <= i < cursors.len() ==> (#[trigger] cursors[i])@ == 0,
    ensures
        rest_from(storage, cursors, since, n) == advanced(concat_updates(storage.take(n)), since),
    decreases n,
{
    if n == 0 {
        assert(advanced(concat_updates(storage.take(0)), since) =~= Seq::<Update>::empty());
    } else {
        lemma_rest_start(storage, cursors, since, n - 1);
        assert(storage.take(n).drop_last() =~= storage.take(n - 1));
        assert(storage.take(n).last() == storage[n - 1]);
        assert(storage[n - 1]@.updates.skip(0) =~= storage[n - 1]@.updates);
        assert(cursors[n - 1]@ == 0);
        assert(advanced(concat_updates(storage.take(n - 1)) + storage[n - 1]@.updates, since) =~= advanced(
            concat_updates(storage.take(n - 1)),
            since,
        ) + advanced(storage[n - 1]@.updates, since));
    }
}

/// A cursor over several batches at once. It yields the updates of all
/// batches in order, with times advanced to a frontier: updates that then
/// share data and time are added up, and sums that come to zero are passed
/// over.
pub struct CursorList {
    cursors: Vec<Cursor>,
    since: Vec<u64>,
}

impl CursorList {
    /// The cursors fit the batches.
    pub closed spec fn wf(&self, storage: Seq<Batch>) -> bool {
        within(storage, self.cursors@) && all_consolidated(storage)
    }

    /// The number of updates that the cursor has still before it in the
    /// batches, before any are added up.
    pub closed spec fn count_left(&self, storage: Seq<Batch>) -> int {
        left(storage, self.cursors@, self.cursors@.len() as int)
    }

    /// The updates that the cursor has still before it, batch after batch,
    /// with times advanced.
    pub closed spec fn remaining(&self, storage: Seq<Batch>) -> Seq<Update> {
        rest_from(storage, self.cursors@, self.since@, self.cursors@.len() as int)
    }

    /// `v` comes strictly before everything that the cursor has still
    /// before it.
    pub closed spec fn passed(&self, storage: Seq<Batch>, v: Update) -> bool {
        before_all(storage, self.cursors@, self.since@, v)
    }

    /// The frontier to which the cursor advances times.
    pub closed spec fn spec_since(&self) -> Seq<u64> {
        self.since@
    }

    /// A cursor over `storage` that advances times to `since`, made of one
    /// fresh cursor for each batch.
    pub fn new(cursors: Vec<Cursor>, storage: &Vec<Batch>, since: &[u64]) -> (list: CursorList)
        requires
            cursors@.len() == storage@.len(),
            forall|i: int| 0 <= i < cursors@.len() ==> (#[trigger] cursors@[i])@ == 0,
        ensures
            list.wf(storage@),
            list.spec_since() == since@,
            list.remaining(storage@) == advanced(concat_updates(storage@), since@),
    {
        let list = CursorList { cursors, since: frontier_to_vec(since) };
        let mut index: usize = 0;
        while index < storage.len()
            invariant
                index <= storage@.len(),
                forall|i: int| 0 <= i < index ==> consolidated(#[trigger] storage@[i]@.updates),
            decreases storage@.len() - index,
        {
            let updates = storage[index].updates();
            index += 1;
        }
        proof {
            lemma_rest_start(storage@, list.cursors@, list.since@, storage@.len() as int);
            assert(storage@.take(storage@.len() as int) =~= storage@);
        }
        list
    }

    /// The cursor whose next update comes first once advanced, if any
    /// cursor has an update before it.
    fn least(&self, storage: &Vec<Batch>) -> (best: Option<usize>)
        requires
            self.wf(storage@),
        ensures
            best is None ==> forall|i: int|
                0 <= i < self.cursors@.len() ==> (#[trigger] self.cursors@[i])@ >= storage@[i]@.updates.len(),
            best is Some ==> {
                &&& best->0 < self.cursors@.len()
                &&& self.cursors@[best->0 as int]@ < storage@[best->0 as int]@.updates.len()
                &&& at_most_heads(
                    storage@,
                    self.cursors@,
                    self.since@,
                    advance_update(storage@[best->0 as int]@.updates[self.cursors@[best->0 as int]@ as int], self.since@),
                )
            },
    {
        let mut best: Option<usize> = None;
        let mut least = Update { data: 0, time: 0, diff: 0 };
        let mut index: usize = 0;
        while index < self.cursors.len()
            invariant
                index <= self.cursors@.len(),
                within(storage@, self.cursors@),
                best is None ==> forall|i: int|
                    0 <= i < index ==> (#[trigger] self.cursors@[i])@ >= storage@[i]@.updates.len(),
                best is Some ==> {
                    &&& best->0 < index
                    &&& self.cursors@[best->0 as int]@ < storage@[best->0 as int]@.updates.len()
                    &&& least == advance_update(
                        storage@[best->0 as int]@.updates[self.cursors@[best->0 as int]@ as int],
                        self.since@,
                    )
                    &&& forall|i: int|
                        0 <= i < index && (#[trigger] self.cursors@[i])@ < storage@[i]@.updates.len() ==> key_le(
                            least,
                            advance_update(storage@[i]@.updates[self.cursors@[i]@ as int], self.since@),
                        )
                },
            decreases self.cursors@.len() - index,
        {
            if self.cursors[index].key_valid(&storage[index]) {
                let u = advance_by(&self.cursors[index].update(&storage[index]), self.since.as_slice());
                let better = match best {
                    None => true,
                    Some(_) => key_less(&u, &least),
                };
                if better {
                    proof {
                        if best is Some {
                            assert forall|i: int|
                                0 <= i < index && (#[trigger] self.cursors@[i])@ < storage@[i]@.updates.len() implies key_le(
                                u,
                                advance_update(storage@[i]@.updates[self.cursors@[i]@ as int], self.since@),
                            ) by {
                                lemma_key_transitive(
                                    u,
                                    least,
                                    advance_update(storage@[i]@.updates[self.cursors@[i]@ as int], self.since@),
                                );
                            }
                        }
                    }
                    best = Some(index);
                    least = u;
                }
            }
            index += 1;
        }
        best
    }

    /// The next update: the least data and time that any batch has still
    /// before the cursor, with the sum of the differences recorded for them,
    /// unless that sum is zero. `None` once nothing with a sum other than
    /// zero is left.
    pub fn next(&mut self, storage: &Vec<Batch>) -> (next: Option<Update>)
        requires
            old(self).wf(storage@),
        ensures
            final(self).wf(storage@),
            final(self).spec_since() == old(self).spec_since(),
            final(self).count_left(storage@) <= old(self).count_left(storage@),
            next is Some ==> final(self).count_left(storage@) < old(self).count_left(storage@),
            next is None ==> equivalent(old(self).remaining(storage@), Seq::empty()) && final(self).remaining(storage@)
                == Seq::<Update>::empty(),
            next is Some ==> {
                &&& next->0.diff != 0
                &&& combines(old(self).remaining(storage@), seq![next->0], final(self).remaining(storage@))
                &&& final(self).passed(storage@, next->0)
                &&& forall|v: Update| #[trigger] old(self).passed(storage@, v) ==> key_lt(v, next->0)
            },
    {
        let ghost whole = self.remaining(storage@);
        let ghost since = self.since@;
        let ghost first = self.cursors@;
        let count = self.cursors.len();
        let mut sum: Option<Update> = None;
        proof {
            assert forall|d: u64, t: u64| total(Seq::<Update>::empty(), d, t) == 0 by {}
        }
        loop
            invariant
                self.since@ == since,
                self.cursors@.len() == count,
                within(storage@, self.cursors@),
                within(storage@, first),
                all_consolidated(storage@),
                forall|i: int| 0 <= i < count ==> (#[trigger] first[i])@ <= self.cursors@[i]@,
                left(storage@, self.cursors@, count as int) <= left(storage@, first, count as int),
                sum is Some ==> left(storage@, self.cursors@, count as int) < left(storage@, first, count as int),
                sum is None ==> equivalent(whole, self.remaining(storage@)),
                sum is Some ==> {
                    &&& forall|d: u64, t: u64| #[trigger]
                        congruent(
                            total(whole, d, t),
                            contribution(sum->0, d, t) + total(self.remaining(storage@), d, t),
                        )
                    &&& at_most_heads(storage@, self.cursors@, since, sum->0)
                    &&& forall|v: Update| before_all(storage@, first, since, v) ==> key_lt(v, sum->0)
                },
            ensures
                self.since@ == since,
                self.cursors@.len() == count,
                within(storage@, self.cursors@),
                left(storage@, self.cursors@, count as int) <= left(storage@, first, count as int),
                sum is Some ==> left(storage@, self.cursors@, count as int) < left(storage@, first, count as int),
                sum is None ==> equivalent(whole, Seq::empty()) && self.remaining(storage@) == Seq::<Update>::empty(),
                sum is Some ==> {
                    &&& sum->0.diff != 0
                    &&& combines(whole, seq![sum->0], self.remaining(storage@))
                    &&& before_all(storage@, self.cursors@, since, sum->0)
                    &&& forall|v: Update| before_all(storage@, first, since, v) ==> key_lt(v, sum->0)
                },
            decreases left(storage@, self.cursors@, count as int),
        {
            let best = self.least(storage);
            match best {
                None => {
                    proof {
                        lemma_rest_exhausted(storage@, self.cursors@, since, count as int);
                    }
                    let ended = match sum {
                        Some(u) => !u.diff.is_zero(),
                        None => false,
                    };
                    if !ended {
                        proof {
                            assert forall|d: u64, t: u64|
                                #![trigger total(whole, d, t)]
                                congruent(total(whole, d, t), total(Seq::<Update>::empty(), d, t)) by {
                                if sum is Some {
                                    assert(congruent(
                                        total(whole, d, t),
                                        contribution(sum->0, d, t) + total(self.remaining(storage@), d, t),
                                    ));
                                } else {
                                    assert(congruent(total(whole, d, t), total(self.remaining(storage@), d, t)));
                                }
                            }
                        }
                        sum = None;
                    } else {
                        proof {
                            lemma_single_total(sum->0);
                            assert forall|d: u64, t: u64|
                                #![trigger total(whole, d, t)]
                                congruent(
                                    total(whole, d, t),
                                    total(seq![sum->0], d, t) + total(self.remaining(storage@), d, t),
                                ) by {
                                assert(congruent(
                                    total(whole, d, t),
                                    contribution(sum->0, d, t) + total(self.remaining(storage@), d, t),
                                ));
                            }
                        }
                    }
                    break ;
                },
                Some(j) => {
                    let u = advance_by(&self.cursors[j].update(&storage[j]), self.since.as_slice());
                    let same = match sum {
                        Some(held) => key_equal(&held, &u),
                        None => false,
                    };
                    let done = match sum {
                        Some(held) => !same && !held.diff.is_zero(),
                        None => false,
                    };
                    if done {
                        // What was added up so far comes before everything
                        // that is left.
                        proof {
                            let held = sum->0;
                            lemma_single_total(held);
                            assert forall|d: u64, t: u64|
                                #![trigger total(whole, d, t)]
                                congruent(
                                    total(whole, d, t),
                                    total(seq![held], d, t) + total(self.remaining(storage@), d, t),
                                ) by {
                                assert(congruent(
                                    total(whole, d, t),
                                    contribution(held, d, t) + total(self.remaining(storage@), d, t),
                                ));
                            }
                            assert forall|i: int, k: int|
                                0 <= i < self.cursors@.len() && self.cursors@[i]@ <= k < storage@[i]@.updates.len() implies key_lt(
                                held,
                                advance_update(#[trigger] storage@[i]@.updates[k], since),
                            ) by {
                                let head = storage@[i]@.updates[self.cursors@[i]@ as int];
                                assert(key_le(u, advance_update(head, since)));
                                assert(consolidated(storage@[i]@.updates));
                                if self.cursors@[i]@ < k {
                                    assert(key_lt(head, storage@[i]@.updates[k]));
                                }
                                lemma_advance_keeps_order(head, storage@[i]@.updates[k], since);
                                lemma_key_transitive(u, advance_update(head, since), advance_update(storage@[i]@.updates[k], since));
                                assert(key_le(held, u));
                                lemma_key_transitive(held, u, advance_update(storage@[i]@.updates[k], since));
                            }
                        }
                        break ;
                    }
                    let ghost before = self.cursors@;
                    let ghost rest = self.remaining(storage@);
                    let next_sum = match sum {
                        Some(held) => {
                            if same {
                                let mut diff = held.diff;
                                diff.plus_equals(&u.diff);
                                Update { data: held.data, time: held.time, diff }
                            } else {
                                u
                            }
                        },
                        None => u,
                    };
                    self.cursors[j].step_key(&storage[j]);
                    proof {
                        lemma_rest_step(storage@, before, self.cursors@, since, j as int, count as int);
                        lemma_left_nonnegative(storage@, self.cursors@, count as int);
                        let now = self.remaining(storage@);
                        assert forall|d: u64, t: u64| #[trigger]
                            congruent(total(whole, d, t), contribution(next_sum, d, t) + total(now, d, t)) by {
                            assert(total(rest, d, t) == total(now, d, t) + contribution(u, d, t));
                            if sum is Some {
                                assert(congruent(total(whole, d, t), contribution(sum->0, d, t) + total(rest, d, t)));
                                if same {
                                    lemma_plus_congruent(sum->0.diff, u.diff);
                                }
                            } else {
                                assert(congruent(total(whole, d, t), total(rest, d, t)));
                            }
                        }
                        // The sum has the data and time of `u`, which is
                        // at most what every cursor is at.
                        assert(same_key(next_sum, u));
                        assert forall|i: int|
                            0 <= i < self.cursors@.len() && (#[trigger] self.cursors@[i])@ < storage@[i]@.updates.len() implies key_le(
                            next_sum,
                            advance_update(storage@[i]@.updates[self.cursors@[i]@ as int], since),
                        ) by {
                            if i == j {
                                assert(consolidated(storage@[i]@.updates));
                                let head = storage@[i]@.updates[before[i]@ as int];
                                let then = storage@[i]@.updates[self.cursors@[i]@ as int];
                                assert(key_lt(head, then));
                                lemma_advance_keeps_order(head, then, since);
                            } else {
                                assert(self.cursors@[i]@ == before[i]@);
                                assert(key_le(u, advance_update(storage@[i]@.updates[before[i]@ as int], since)));
                            }
                        }
                        assert forall|v: Update| before_all(storage@, first, since, v) implies key_lt(v, next_sum) by {
                            assert(first[j as int]@ <= before[j as int]@);
                            assert(key_lt(v, advance_update(storage@[j as int]@.updates[before[j as int]@ as int], since)));
                        }
                    }
                    sum = Some(next_sum);
                },
            }
        }
        sum
    }

    /// All updates that the cursor has still before it: consolidated, and
    /// meaning what the updates of the batches mean with their times
    /// advanced.
    pub fn collect(&mut self, storage: &Vec<Batch>) -> (out: Vec<Update>)
        requires
            old(self).wf(storage@),
        ensures
            final(self).wf(storage@),
            consolidated(out@),
            equivalent(out@, old(self).remaining(storage@)),
            out@ == crate::consolidation::canonical(old(self).remaining(storage@)),
            final(self).remaining(storage@) == Seq::<Update>::empty(),
    {
        let ghost whole = self.remaining(storage@);
        let mut out: Vec<Update> = Vec::new();
        proof {
            lemma_total_concat(out@, whole);
            assert(out@ + whole =~= whole);
        }
        loop
            invariant_except_break
                out@.len() > 0 ==> self.passed(storage@, out@[out@.len() - 1]),
            invariant
                self.wf(storage@),
                consolidated(out@),
                combines(whole, out@, self.remaining(storage@)),
            ensures
                self.wf(storage@),
                consolidated(out@),
                equivalent(out@, whole),
                self.remaining(storage@) == Seq::<Update>::empty(),
            decreases self.count_left(storage@),
        {
            let ghost rest = self.remaining(storage@);
            let next = self.next(storage);
            proof {
                lemma_left_nonnegative(storage@, self.cursors@, self.cursors@.len() as int);
            }
            match next {
                None => {
                    proof {
                        assert forall|d: u64, t: u64|
                            #![trigger total(out@, d, t)]
                            #![trigger total(whole, d, t)]
                            congruent(total(out@, d, t), total(whole, d, t)) by {
                            assert(congruent(total(whole, d, t), total(out@, d, t) + total(rest, d, t)));
                            assert(congruent(total(rest, d, t), total(Seq::<Update>::empty(), d, t)));
                            assert(total(Seq::<Update>::empty(), d, t) == 0);
                        }
                    }
                    break ;
                },
                Some(u) => {
                    let ghost put = out@;
                    out.push(u);
                    proof {
                        lemma_total_push(put, u);
                        lemma_single_total(u);
                        let now = self.remaining(storage@);
                        assert forall|d: u64, t: u64|
                            #![trigger total(whole, d, t)]
                            #![trigger total(out@, d, t)]
                            #![trigger total(now, d, t)]
                            congruent(total(whole, d, t), total(out@, d, t) + total(now, d, t)) by {
                            assert(congruent(total(whole, d, t), total(put, d, t) + total(rest, d, t)));
                            assert(congruent(total(rest, d, t), total(seq![u], d, t) + total(now, d, t)));
                        }
                        assert forall|i: int, k: int| 0 <= i < k < out@.len() implies key_lt(
                            #[trigger] out@[i],
                            #[trigger] out@[k],
                        ) by {
                            if k < put.len() {
                                assert(key_lt(put[i], put[k]));
                            } else {
                                assert(key_lt(put[put.len() - 1], u));
                                if i < put.len() - 1 {
                                    assert(key_lt(put[i], put[put.len() - 1]));
                                }
                            }
                        }
                        assert forall|i: int| 0 <= i < out@.len() implies (#[trigger] out@[i]).diff != 0 by {
                            if i < put.len() {
                                assert(put[i].diff != 0);
                            }
                        }
                    }
                },
            }
        }
        proof {
            crate::consolidation::lemma_canonical(out@, whole);
        }
        out
    }
}

} // verus!
