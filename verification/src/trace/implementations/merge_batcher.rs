//! The merge batcher: it takes updates in any order and hands them out in
//! order, as far as a frontier says that they are complete.
//!
//! The batcher keeps its updates in chains. A chain is a list of chunks that
//! is consolidated as a whole. A new chain is merged with the one before it
//! as long as it is at least half as long, so the chains get shorter from
//! the first to the last by a factor of two or more.

use vstd::prelude::*;
use timely::progress::frontier::Antichain;
use crate::antichain::antichain_elements;
use crate::antichain::antichain_new;
use crate::antichain::antichain_to_vec;
use crate::consolidation::canonical;
use crate::consolidation::combines;
use crate::consolidation::consolidated;
use crate::consolidation::equivalent;
use crate::consolidation::lemma_canonical;
use crate::consolidation::lemma_combines_concat;
use crate::consolidation::lemma_equivalent_concat;
use crate::consolidation::lemma_equivalent_refl;
use crate::consolidation::lemma_equivalent_sym;
use crate::consolidation::lemma_equivalent_trans;
use crate::consolidation::lemma_total_concat;
use crate::consolidation::total;
use crate::lattice::in_advance_of;
use crate::merging::consolidate_updates;
use crate::trace::batch::Batch;
use crate::trace::batch::Builder;
use crate::trace::implementations::flat_chunk::Chunk;
use crate::trace::implementations::merge_batcher_flat::blank;
use crate::trace::implementations::merge_batcher_flat::chunk_capacity_spec;
use crate::trace::implementations::merge_batcher_flat::flatten;
use crate::trace::implementations::merge_batcher_flat::kept_updates;
use crate::trace::implementations::merge_batcher_flat::lemma_flatten_push;
use crate::trace::implementations::merge_batcher_flat::lower_bound;
use crate::trace::implementations::merge_batcher_flat::merged_to_size;
use crate::trace::implementations::merge_batcher_flat::no_empty;
use crate::trace::implementations::merge_batcher_flat::packed;
use crate::trace::implementations::merge_batcher_flat::sized;
use crate::trace::implementations::merge_batcher_flat::split_to_size;
use crate::trace::implementations::merge_batcher_flat::stocked;
use crate::trace::implementations::merge_batcher_flat::ready_updates;
use crate::trace::implementations::merge_batcher_flat::FlatcontainerMerger;
use crate::update::advanced;
use crate::update::Update;

verus! {

/// The updates of all chains, one chain after the other.
pub open spec fn chained_updates(chains: Seq<Vec<Chunk>>) -> Seq<Update>
    decreases chains.len(),
{
    if chains.len() == 0 {
        Seq::empty()
    } else {
        chained_updates(chains.drop_last()) + flatten(chains.last()@)
    }
}

/// Every chain is consolidated and holds no empty chunk.
pub open spec fn chains_ok(chains: Seq<Vec<Chunk>>) -> bool {
    forall|i: int| 0 <= i < chains.len() ==> consolidated(flatten((#[trigger] chains[i])@)) && no_empty(chains[i]@)
}

/// No chunk of a chain holds more updates than a chunk of the merger is
/// meant to hold.
pub open spec fn chains_sized(chains: Seq<Vec<Chunk>>) -> bool {
    forall|i: int| 0 <= i < chains.len() ==> sized((#[trigger] chains[i])@)
}

/// Chains of chunks of the merger's size, with one chain more.
proof fn lemma_sized_more(before: Seq<Vec<Chunk>>, chain: Vec<Chunk>)
    requires
        chains_sized(before),
        sized(chain@),
    ensures
        chains_sized(before.push(chain)),
{
    assert forall|i: int| 0 <= i < before.push(chain).len() implies sized((#[trigger] before.push(chain)[i])@) by {
        if i < before.len() {
            assert(before.push(chain)[i] == before[i]);
        }
    }
}

/// Chains of chunks of the merger's size, without the last chain.
proof fn lemma_sized_fewer(before: Seq<Vec<Chunk>>)
    requires
        chains_sized(before),
        before.len() > 0,
    ensures
        chains_sized(before.drop_last()),
        sized(before.last()@),
{
    assert(before.last() == before[before.len() - 1]);
    assert forall|i: int| 0 <= i < before.drop_last().len() implies sized((#[trigger] before.drop_last()[i])@) by {
        assert(before.drop_last()[i] == before[i]);
    }
}

/// Every chain is less than half as long as the chain before it.
pub open spec fn geometric(chains: Seq<Vec<Chunk>>) -> bool {
    forall|i: int| 0 <= i < chains.len() - 1 ==> (#[trigger] chains[i + 1])@.len() < chains[i]@.len() / 2
}

/// Two last chains that are replaced by their merge: the chains are still
/// consolidated, the chains before the last are as they were, and the
/// updates of all chains mean the same.
proof fn lemma_merged_last(before: Seq<Vec<Chunk>>, after: Seq<Vec<Chunk>>, merged: Vec<Chunk>)
    requires
        before.len() >= 2,
        chains_ok(before),
        geometric(before.drop_last()),
        after == before.drop_last().drop_last().push(merged),
        combines(flatten(merged@), flatten(before[before.len() - 2]@), flatten(before[before.len() - 1]@)),
        consolidated(flatten(merged@)),
        no_empty(merged@),
    ensures
        chains_ok(after),
        geometric(after.drop_last()),
        equivalent(chained_updates(after), chained_updates(before)),
{
    let base = before.drop_last().drop_last();
    let list1 = before[before.len() - 2];
    let list2 = before[before.len() - 1];
    assert(after.drop_last() =~= base);
    assert(after.last() == merged);
    assert(before.last() == list2);
    assert(before.drop_last().last() == list1);
    assert forall|i: int| 0 <= i < after.len() implies consolidated(flatten((#[trigger] after[i])@)) && no_empty(
        after[i]@,
    ) by {
        if i < base.len() {
            assert(after[i] == before[i]);
        }
    }
    assert forall|i: int| 0 <= i < after.drop_last().len() - 1 implies (#[trigger] after.drop_last()[i + 1])@.len()
        < after.drop_last()[i]@.len() / 2 by {
        assert(after.drop_last()[i + 1] == before.drop_last()[i + 1]);
        assert(after.drop_last()[i] == before.drop_last()[i]);
    }
    let a = flatten(list1@);
    let b = flatten(list2@);
    lemma_combines_concat(flatten(merged@), a, b);
    lemma_equivalent_refl(chained_updates(base));
    lemma_equivalent_concat(chained_updates(base), flatten(merged@), chained_updates(base), a + b);
    assert(chained_updates(before) =~= chained_updates(base) + (a + b)) by {
        assert(chained_updates(before.drop_last()) == chained_updates(base) + a);
    }
}

/// Accepts updates in any order and hands them out in order.
pub struct MergeBatcher {
    merger: FlatcontainerMerger,
    chains: Vec<Vec<Chunk>>,
    stash: Vec<Chunk>,
    frontier: Antichain<u64>,
    lower: Vec<u64>,
}

impl MergeBatcher {
    /// The updates that the batcher holds, chain after chain.
    pub closed spec fn contents(&self) -> Seq<Update> {
        chained_updates(self.chains@)
    }

    /// The frontier at which the next batch begins.
    pub closed spec fn spec_lower(&self) -> Seq<u64> {
        self.lower@
    }

    /// The antichain of the times of the updates that stayed when updates
    /// were last extracted.
    pub closed spec fn spec_frontier(&self) -> Seq<u64> {
        antichain_elements(self.frontier)
    }

    /// The number of chunks in each chain, from the first chain to the
    /// last.
    pub closed spec fn chain_lengths(&self) -> Seq<nat> {
        Seq::new(self.chains@.len(), |i: int| self.chains@[i]@.len())
    }

    /// The chains are in order, each is less than half as long as the one
    /// before it, and the stash holds empty chunks.
    pub closed spec fn wf(&self) -> bool {
        &&& chains_ok(self.chains@)
        &&& geometric(self.chains@)
        &&& blank(self.stash@)
        &&& stocked(self.stash@)
        &&& chains_sized(self.chains@)
    }

    /// The chains get shorter from the first to the last by more than a
    /// factor of two.
    pub proof fn lemma_chains_shrink(&self, i: int)
        requires
            self.wf(),
            0 <= i < self.chain_lengths().len() - 1,
        ensures
            self.chain_lengths()[i + 1] < self.chain_lengths()[i] / 2,
    {
        assert(self.chains@[i + 1]@.len() < self.chains@[i]@.len() / 2);
    }

    /// A batcher that holds nothing; its first batch begins at the least
    /// time.
    pub fn new() -> (batcher: MergeBatcher)
        ensures
            batcher.wf(),
            batcher.contents() == Seq::<Update>::empty(),
            batcher.spec_lower() == seq![0u64],
            batcher.spec_frontier() == Seq::<u64>::empty(),
    {
        let mut lower: Vec<u64> = Vec::new();
        lower.push(crate::lattice::minimum());
        proof {
            assert(lower@ =~= seq![0u64]);
        }
        MergeBatcher {
            merger: FlatcontainerMerger::default(),
            chains: Vec::new(),
            stash: Vec::new(),
            frontier: antichain_new(),
            lower,
        }
    }

    /// Packs consolidated updates into a chain of chunks.
    fn pack(&mut self, updates: &Vec<Update>) -> (chain: Vec<Chunk>)
        requires
            blank(old(self).stash@),
            stocked(old(self).stash@),
        ensures
            flatten(chain@) == updates@,
            no_empty(chain@),
            sized(chain@),
            blank(final(self).stash@),
            stocked(final(self).stash@),
            final(self).chains == old(self).chains,
            final(self).frontier == old(self).frontier,
            final(self).lower == old(self).lower,
    {
        let mut chain: Vec<Chunk> = Vec::new();
        let mut chunk = self.merger.empty(&mut self.stash);
        let mut index: usize = 0;
        proof {
            assert(flatten(chain@) + chunk@ =~= updates@.take(0));
        }
        while index < updates.len()
            invariant
                index <= updates@.len(),
                blank(self.stash@),
                self.chains == old(self).chains,
                self.frontier == old(self).frontier,
                self.lower == old(self).lower,
                chunk.spec_capacity() > 0,
                flatten(chain@) + chunk@ == updates@.take(index as int),
                no_empty(chain@),
                stocked(self.stash@),
                sized(chain@),
                chunk.spec_capacity() == chunk_capacity_spec(),
                chunk@.len() <= chunk.spec_capacity(),
            decreases updates@.len() - index,
        {
            if chunk.len() == chunk.capacity() {
                let ghost put = chain@;
                let ghost full = chunk;
                chain.push(chunk);
                chunk = self.merger.empty(&mut self.stash);
                proof {
                    lemma_flatten_push(put, full);
                    assert(flatten(chain@) + chunk@ =~= flatten(put) + full@);
                    assert forall|i: int| 0 <= i < chain@.len() implies (#[trigger] chain@[i])@.len() > 0 by {
                        if i < put.len() {
                            assert(chain@[i] == put[i]);
                        }
                    }
                    assert forall|i: int| 0 <= i < chain@.len() implies (#[trigger] chain@[i])@.len()
                        <= chunk_capacity_spec() by {
                        if i < put.len() {
                            assert(chain@[i] == put[i]);
                        }
                    }
                }
            }
            let ghost before = chunk@;
            chunk.copy(updates[index]);
            index += 1;
            proof {
                assert(flatten(chain@) + chunk@ =~= (flatten(chain@) + before).push(updates@[index - 1]));
                assert(updates@.take(index as int) =~= updates@.take(index - 1).push(updates@[index - 1]));
            }
        }
        proof {
            assert(updates@.take(index as int) =~= updates@);
        }
        if !chunk.is_empty() {
            let ghost put = chain@;
            let ghost last = chunk;
            chain.push(chunk);
            proof {
                lemma_flatten_push(put, last);
                assert forall|i: int| 0 <= i < chain@.len() implies (#[trigger] chain@[i])@.len() > 0 by {
                    if i < put.len() {
                        assert(chain@[i] == put[i]);
                    }
                }
                assert forall|i: int| 0 <= i < chain@.len() implies (#[trigger] chain@[i])@.len()
                    <= chunk_capacity_spec() by {
                    if i < put.len() {
                        assert(chain@[i] == put[i]);
                    }
                }
            }
        } else {
            proof {
                assert(flatten(chain@) + chunk@ =~= flatten(chain@));
            }
        }
        chain
    }

    /// The batcher is as it should be, but for the length of the last
    /// chain.
    spec fn settled(&self) -> bool {
        &&& chains_ok(self.chains@)
        &&& self.chains@.len() > 0 ==> geometric(self.chains@.drop_last())
        &&& blank(self.stash@)
        &&& stocked(self.stash@)
        &&& chains_sized(self.chains@)
    }

    /// Merges the last two chains into one.
    fn merge_last(&mut self)
        requires
            old(self).settled(),
            old(self).chains@.len() >= 2,
        ensures
            final(self).settled(),
            final(self).chains@.len() == old(self).chains@.len() - 1,
            equivalent(final(self).contents(), old(self).contents()),
            final(self).frontier == old(self).frontier,
            final(self).lower == old(self).lower,
    {
        let ghost before = self.chains@;
        let list2 = self.chains.pop().unwrap();
        let list1 = self.chains.pop().unwrap();
        let ghost base = self.chains@;
        let mut merged: Vec<Chunk> = Vec::new();
        proof {
            assert(before[before.len() - 1] == list2);
            assert(before[before.len() - 2] == list1);
            assert(consolidated(flatten(list1@)) && no_empty(list1@));
            assert(consolidated(flatten(list2@)) && no_empty(list2@));
            assert(before.drop_last().drop_last() =~= base);
            lemma_sized_fewer(before);
            lemma_sized_fewer(before.drop_last());
            assert(before.last() == list2);
            assert(before.drop_last().last() == list1);
        }
        self.merger.merge(list1, list2, &mut merged, &mut self.stash);
        proof {
            assert(merged@.skip(0) =~= merged@);
            assert(stocked(self.stash@) && sized(merged@)) by {
                reveal(merged_to_size);
            }
            lemma_sized_more(base, merged);
        }
        self.chains.push(merged);
        proof {
            lemma_merged_last(before, self.chains@, merged);
        }
    }

    /// Puts a chain behind the others and merges it with the chain before
    /// it for as long as it is at least half as long.
    fn insert_chain(&mut self, chain: Vec<Chunk>)
        requires
            old(self).wf(),
            consolidated(flatten(chain@)),
            no_empty(chain@),
            sized(chain@),
        ensures
            final(self).wf(),
            equivalent(final(self).contents(), old(self).contents() + flatten(chain@)),
            final(self).frontier == old(self).frontier,
            final(self).lower == old(self).lower,
    {
        proof {
            lemma_equivalent_refl(self.contents());
        }
        if chain.len() > 0 {
            let ghost before = self.chains@;
            self.chains.push(chain);
            proof {
                lemma_sized_more(before, chain);
                assert(self.chains@.drop_last() =~= before);
                assert forall|i: int|
                    0 <= i < self.chains@.len() implies consolidated(flatten((#[trigger] self.chains@[i])@))
                    && no_empty(self.chains@[i]@) by {
                    if i < before.len() {
                        assert(self.chains@[i] == before[i]);
                    }
                }
                lemma_equivalent_refl(self.contents());
            }
            let ghost whole = self.contents();
            while self.chains.len() > 1 && self.chains[self.chains.len() - 1].len() >= self.chains[self.chains.len()
                - 2].len() / 2
                invariant
                    self.settled(),
                    equivalent(self.contents(), whole),
                    self.frontier == old(self).frontier,
                    self.lower == old(self).lower,
                decreases self.chains@.len(),
            {
                let ghost held = self.contents();
                self.merge_last();
                proof {
                    lemma_equivalent_trans(self.contents(), held, whole);
                }
            }
            proof {
                let all = self.chains@;
                assert forall|i: int| 0 <= i < all.len() - 1 implies (#[trigger] all[i + 1])@.len() < all[i]@.len()
                    / 2 by {
                    if i < all.len() - 2 {
                        assert(all.drop_last()[i + 1] == all[i + 1]);
                        assert(all.drop_last()[i] == all[i]);
                    }
                }
            }
        } else {
            proof {
                assert(flatten(chain@) =~= Seq::<Update>::empty());
                assert(self.contents() + flatten(chain@) =~= self.contents());
            }
        }
    }

    /// Takes a chunk of updates in any order. The chunk is brought into
    /// order and merged into the chains.
    pub fn push_chunk(&mut self, chunk: &Vec<Update>)
        requires
            old(self).wf(),
        ensures
            final(self).wf(),
            equivalent(final(self).contents(), old(self).contents() + chunk@),
            final(self).spec_lower() == old(self).spec_lower(),
            final(self).spec_frontier() == old(self).spec_frontier(),
    {
        let sorted = consolidate_updates(chunk);
        let ghost held = self.contents();
        let chain = self.pack(&sorted);
        self.insert_chain(chain);
        proof {
            lemma_equivalent_refl(held);
            lemma_equivalent_concat(held, sorted@, held, chunk@);
            lemma_equivalent_trans(self.contents(), held + sorted@, held + chunk@);
        }
    }

    /// The antichain of the times of the updates that stayed when updates
    /// were last extracted.
    pub fn frontier(&self) -> (elements: Vec<u64>)
        ensures
            elements@ == self.spec_frontier(),
    {
        antichain_to_vec(&self.frontier)
    }

    /// The frontier at which the next batch begins.
    pub fn lower(&self) -> (elements: &Vec<u64>)
        ensures
            elements@ == self.spec_lower(),
    {
        &self.lower
    }

    /// Hands out the updates whose time is not in advance of `upper`, in
    /// order, and keeps the others. All updates are consolidated before
    /// they are split. The antichain of the times that stay is recorded:
    /// every such time is in advance of it. Every chunk that is handed out
    /// but the last is full.
    pub fn extract(&mut self, upper: &Antichain<u64>) -> (ready: Vec<Chunk>)
        requires
            old(self).wf(),
        ensures
            final(self).wf(),
            flatten(ready@) == ready_updates(canonical(old(self).contents()), antichain_elements(*upper)),
            forall|i: int|
                0 <= i < final(self).contents().len() ==> in_advance_of(
                    final(self).spec_frontier(),
                    (#[trigger] final(self).contents()[i]).time,
                ),
            final(self).contents() == kept_updates(canonical(old(self).contents()), antichain_elements(*upper)),
            final(self).spec_frontier() == lower_bound(Seq::empty(), final(self).contents()),
            final(self).spec_lower() == old(self).spec_lower(),
            no_empty(ready@),
            packed(ready@),
            consolidated(flatten(ready@)),
            consolidated(final(self).contents()),
            consolidated(canonical(old(self).contents())),
            equivalent(canonical(old(self).contents()), old(self).contents()),
    {
        let ghost whole = self.contents();
        proof {
            lemma_equivalent_refl(whole);
        }
        // Merge all chains into one.
        proof {
            let all = self.chains@;
            if all.len() > 0 {
                assert forall|i: int| 0 <= i < all.drop_last().len() - 1 implies (#[trigger] all.drop_last()[i
                    + 1])@.len() < all.drop_last()[i]@.len() / 2 by {
                    assert(all.drop_last()[i + 1] == all[i + 1]);
                    assert(all.drop_last()[i] == all[i]);
                }
            }
        }
        while self.chains.len() > 1
            invariant
                self.settled(),
                equivalent(self.contents(), whole),
                self.lower == old(self).lower,
            decreases self.chains@.len(),
        {
            let ghost held = self.contents();
            self.merge_last();
            proof {
                lemma_equivalent_trans(self.contents(), held, whole);
            }
        }
        let ghost last = self.chains@;
        let merged = match self.chains.pop() {
            Some(chain) => chain,
            None => Vec::new(),
        };
        proof {
            if last.len() > 0 {
                assert(last.len() == 1);
                assert(merged == last[0]);
                assert(last.last() == last[0]);
                assert(last.drop_last() =~= Seq::<Vec<Chunk>>::empty());
                assert(chained_updates(last.drop_last()) =~= Seq::<Update>::empty());
                assert(chained_updates(last) =~= flatten(merged@));
                assert(consolidated(flatten(last[0]@)));
            } else {
                assert(flatten(merged@) =~= Seq::<Update>::empty());
            }
            lemma_canonical(flatten(merged@), whole);
        }
        let mut kept: Vec<Chunk> = Vec::new();
        let mut readied: Vec<Chunk> = Vec::new();
        self.frontier = antichain_new();
        self.merger.extract(merged, upper, &mut self.frontier, &mut readied, &mut kept, &mut self.stash);
        proof {
            assert(kept@.skip(0) =~= kept@);
            assert(readied@.skip(0) =~= readied@);
            lemma_split_consolidated(flatten(merged@), antichain_elements(*upper));
            assert(packed(kept@) && packed(readied@)) by {
                reveal(split_to_size);
            }
            assert(sized(kept@));
        }
        if kept.len() > 0 {
            proof {
                lemma_sized_more(self.chains@, kept);
            }
            self.chains.push(kept);
            proof {
                assert(self.chains@.drop_last() =~= Seq::<Vec<Chunk>>::empty());
                assert(chained_updates(self.chains@) =~= flatten(kept@));
            }
        } else {
            proof {
                assert(flatten(kept@) =~= Seq::<Update>::empty());
            }
        }
        self.stash.clear();
        readied
    }

    /// Seals the updates whose time is not in advance of `upper` into a
    /// batch, which begins where the batch before it ended and ends at
    /// `upper`.
    pub fn seal(&mut self, upper: &Antichain<u64>) -> (batch: Batch)
        requires
            old(self).wf(),
        ensures
            final(self).wf(),
            batch@.lower == old(self).spec_lower(),
            batch@.upper == antichain_elements(*upper),
            batch@.since == seq![0u64],
            batch@.updates == ready_updates(canonical(old(self).contents()), antichain_elements(*upper)),
            final(self).contents() == kept_updates(canonical(old(self).contents()), antichain_elements(*upper)),
            final(self).spec_frontier() == lower_bound(Seq::empty(), final(self).contents()),
            final(self).spec_lower() == antichain_elements(*upper),
            consolidated(canonical(old(self).contents())),
            equivalent(canonical(old(self).contents()), old(self).contents()),
    {
        let ghost sorted = canonical(self.contents());
        let ghost bound = antichain_elements(*upper);
        let ready = self.extract(upper);
        let mut builder = Builder::new();
        let mut index: usize = 0;
        let ghost mut read: Seq<Update> = Seq::empty();
        while index < ready.len()
            invariant
                index <= ready@.len(),
                read == flatten(ready@.take(index as int)),
                builder@ == read,
            decreases ready@.len() - index,
        {
            let chunk = &ready[index];
            let len = chunk.len();
            let mut offset: usize = 0;
            let ghost start = read;
            while offset < len
                invariant
                    offset <= len,
                    len == chunk@.len(),
                    builder@ == start + chunk@.take(offset as int),
                decreases len - offset,
            {
                let u = chunk.get(offset);
                builder.push(u.data, u.time, u.diff);
                offset += 1;
                proof {
                    assert(start + chunk@.take(offset as int) =~= (start + chunk@.take(offset - 1)).push(u));
                }
            }
            index += 1;
            proof {
                assert(chunk@.take(len as int) =~= chunk@);
                assert(ready@.take(index as int).drop_last() =~= ready@.take(index - 1));
                read = start + chunk@;
            }
        }
        let mut since: Vec<u64> = Vec::new();
        since.push(crate::lattice::minimum());
        let bounds = antichain_to_vec(upper);
        let batch = builder.done(self.lower.as_slice(), bounds.as_slice(), since.as_slice());
        proof {
            assert(ready@.take(index as int) =~= ready@);
            assert(since@ =~= seq![0u64]);
            crate::update::lemma_advanced_by_minimum(read);
            let out = ready_updates(sorted, bound);
            lemma_equivalent_refl(out);
            lemma_canonical(out, out);
        }
        self.lower = bounds;
        batch
    }
}

/// Splitting a consolidated sequence gives consolidated parts, whose
/// updates are updates of the whole.
pub proof fn lemma_split_consolidated(s: Seq<Update>, upper: Seq<u64>)
    requires
        consolidated(s),
    ensures
        consolidated(kept_updates(s, upper)),
        consolidated(ready_updates(s, upper)),
        forall|i: int| 0 <= i < kept_updates(s, upper).len() ==> crate::consolidation::occurs(
            s,
            #[trigger] kept_updates(s, upper)[i],
        ),
        forall|i: int| 0 <= i < ready_updates(s, upper).len() ==> crate::consolidation::occurs(
            s,
            #[trigger] ready_updates(s, upper)[i],
        ),
    decreases s.len(),
{
    if s.len() > 0 {
        let front = s.drop_last();
        let u = s.last();
        assert forall|p: int, q: int| 0 <= p < q < front.len() implies crate::update::key_lt(
            #[trigger] front[p],
            #[trigger] front[q],
        ) by {
            assert(crate::update::key_lt(s[p], s[q]));
        }
        assert forall|p: int| 0 <= p < front.len() implies (#[trigger] front[p]).diff != 0 by {
            assert(s[p].diff != 0);
        }
        lemma_split_consolidated(front, upper);
        let kept = kept_updates(s, upper);
        let ready = ready_updates(s, upper);
        let kept0 = kept_updates(front, upper);
        let ready0 = ready_updates(front, upper);
        assert forall|i: int| 0 <= i < kept.len() implies crate::consolidation::occurs(s, #[trigger] kept[i]) by {
            if i < kept0.len() {
                assert(crate::consolidation::occurs(front, kept0[i]));
                let j = choose|j: int| 0 <= j < front.len() && #[trigger] front[j] == kept0[i];
                assert(s[j] == kept[i]);
            } else {
                assert(s[s.len() - 1] == kept[i]);
            }
        }
        assert forall|i: int| 0 <= i < ready.len() implies crate::consolidation::occurs(s, #[trigger] ready[i]) by {
            if i < ready0.len() {
                assert(crate::consolidation::occurs(front, ready0[i]));
                let j = choose|j: int| 0 <= j < front.len() && #[trigger] front[j] == ready0[i];
                assert(s[j] == ready[i]);
            } else {
                assert(s[s.len() - 1] == ready[i]);
            }
        }
        assert forall|p: int, q: int| 0 <= p < q < kept.len() implies crate::update::key_lt(
            #[trigger] kept[p],
            #[trigger] kept[q],
        ) by {
            if q < kept0.len() {
                assert(crate::update::key_lt(kept0[p], kept0[q]));
            } else {
                assert(crate::consolidation::occurs(front, kept0[p]));
                let j = choose|j: int| 0 <= j < front.len() && #[trigger] front[j] == kept0[p];
                assert(crate::update::key_lt(s[j], s[s.len() - 1]));
            }
        }
        assert forall|p: int, q: int| 0 <= p < q < ready.len() implies crate::update::key_lt(
            #[trigger] ready[p],
            #[trigger] ready[q],
        ) by {
            if q < ready0.len() {
                assert(crate::update::key_lt(ready0[p], ready0[q]));
            } else {
                assert(crate::consolidation::occurs(front, ready0[p]));
                let j = choose|j: int| 0 <= j < front.len() && #[trigger] front[j] == ready0[p];
                assert(crate::update::key_lt(s[j], s[s.len() - 1]));
            }
        }
        assert forall|p: int| 0 <= p < kept.len() implies (#[trigger] kept[p]).diff != 0 by {
            if p < kept0.len() {
                assert(kept0[p].diff != 0);
            } else {
                assert(s[s.len() - 1].diff != 0);
            }
        }
        assert forall|p: int| 0 <= p < ready.len() implies (#[trigger] ready[p]).diff != 0 by {
            if p < ready0.len() {
                assert(ready0[p].diff != 0);
            } else {
                assert(s[s.len() - 1].diff != 0);
            }
        }
    }
}

} // verus!
