use fueled_spine::trace::implementations::flat_chunk::Chunk;
use fueled_spine::trace::implementations::flat_chunk::MergerChunk;
use fueled_spine::trace::implementations::flat_chunk::UpdateStack;
use fueled_spine::trace::implementations::merge_batcher::MergeBatcher;
use fueled_spine::trace::implementations::merge_batcher_flat::FlatcontainerMerger;
use fueled_spine::update::Update;
use timely::progress::frontier::Antichain;

fn update(data: u64, time: u64, diff: i64) -> Update {
    Update { data, time, diff }
}

fn chunk(capacity: usize, updates: &[Update]) -> Chunk {
    let mut chunk = Chunk::with_capacity(capacity);
    for u in updates {
        chunk.copy(*u);
    }
    chunk
}

fn contents(chunks: &[Chunk]) -> Vec<Update> {
    let mut all = Vec::new();
    for chunk in chunks {
        for offset in 0..chunk.len() {
            all.push(chunk.get(offset));
        }
    }
    all
}

#[test]
fn a_chunk_holds_what_was_copied_into_it() {
    let mut chunk = Chunk::with_capacity(4);
    assert!(chunk.is_empty());
    assert_eq!(chunk.capacity(), 4);
    chunk.copy(update(1, 2, 3));
    chunk.copy(update(4, 5, -6));
    assert_eq!(chunk.len(), 2);
    assert!(!chunk.is_empty());
    assert_eq!(chunk.get(0), update(1, 2, 3));
    assert_eq!(chunk.get(1), update(4, 5, -6));
    assert_eq!(chunk.capacity(), 4);
    chunk.clear();
    assert_eq!(chunk.len(), 0);
    assert_eq!(chunk.capacity(), 4);
}

#[test]
fn a_full_chunk_grows_by_one() {
    let mut chunk = Chunk::new();
    assert_eq!(chunk.capacity(), 0);
    chunk.copy(update(1, 1, 1));
    assert_eq!(chunk.capacity(), 1);
    chunk.copy(update(2, 2, 2));
    assert_eq!(chunk.capacity(), 2);
    assert_eq!(chunk.len(), 2);
}

#[test]
fn items_are_taken_apart_in_order() {
    assert_eq!(<UpdateStack as MergerChunk>::into_parts((7, 8, -9)), update(7, 8, -9));
}

#[test]
fn chunk_capacity_fits_the_target_size() {
    let merger = FlatcontainerMerger::default();
    assert_eq!(merger.chunk_capacity(), 8192 / std::mem::size_of::<(u64, u64, i64)>());
    assert_eq!(merger.chunk_capacity(), 341);
}

#[test]
fn empty_takes_from_the_stash_first() {
    let merger = FlatcontainerMerger::default();
    let mut stash = vec![Chunk::with_capacity(5)];
    let taken = merger.empty(&mut stash);
    assert_eq!(taken.capacity(), 5);
    assert!(stash.is_empty());
    let made = merger.empty(&mut stash);
    assert_eq!(made.capacity(), merger.chunk_capacity());
    assert!(made.is_empty());
}

#[test]
fn recycle_keeps_chunks_of_the_target_capacity() {
    let merger = FlatcontainerMerger::default();
    let mut stash = Vec::new();
    merger.recycle(chunk(merger.chunk_capacity(), &[update(1, 1, 1)]), &mut stash);
    assert_eq!(stash.len(), 1);
    assert!(stash[0].is_empty());
    merger.recycle(chunk(3, &[update(1, 1, 1)]), &mut stash);
    assert_eq!(stash.len(), 1);
}

#[test]
fn merge_interleaves_two_lists() {
    let mut merger = FlatcontainerMerger::default();
    let list1 = vec![chunk(2, &[update(1, 0, 1), update(3, 0, 1)]), chunk(2, &[update(5, 0, 1), update(7, 0, 1)])];
    let list2 = vec![chunk(3, &[update(2, 0, 1), update(3, 0, 2), update(5, 0, -1)]), chunk(1, &[update(9, 0, 1)])];
    let mut output = Vec::new();
    let mut stash = Vec::new();
    merger.merge(list1, list2, &mut output, &mut stash);
    assert_eq!(
        contents(&output),
        vec![update(1, 0, 1), update(2, 0, 1), update(3, 0, 3), update(7, 0, 1), update(9, 0, 1)]
    );
    for chunk in &output {
        assert!(!chunk.is_empty());
    }
    for chunk in &stash {
        assert!(chunk.is_empty());
    }
}

#[test]
fn merge_keeps_what_the_output_held() {
    let mut merger = FlatcontainerMerger::default();
    let mut output = vec![chunk(1, &[update(100, 0, 1)])];
    let mut stash = Vec::new();
    merger.merge(vec![chunk(1, &[update(1, 0, 1)])], Vec::new(), &mut output, &mut stash);
    assert_eq!(contents(&output), vec![update(100, 0, 1), update(1, 0, 1)]);
}

#[test]
fn merge_fills_chunks_to_capacity() {
    let mut merger = FlatcontainerMerger::default();
    let capacity = merger.chunk_capacity();
    let mut first = Vec::new();
    let mut second = Vec::new();
    for i in 0..1000u64 {
        first.push(update(2 * i, 0, 1));
        second.push(update(2 * i + 1, 0, 1));
    }
    let list1 = vec![chunk(1000, &first)];
    let list2 = vec![chunk(500, &second[..500]), chunk(500, &second[500..])];
    let mut output = Vec::new();
    let mut stash = Vec::new();
    merger.merge(list1, list2, &mut output, &mut stash);
    let merged = contents(&output);
    assert_eq!(merged.len(), 2000);
    for (i, u) in merged.iter().enumerate() {
        assert_eq!(*u, update(i as u64, 0, 1));
    }
    for chunk in &output {
        assert!(chunk.len() <= capacity);
        assert!(!chunk.is_empty());
    }
}

#[test]
fn merge_of_cancelling_lists_is_empty() {
    let mut merger = FlatcontainerMerger::default();
    let mut output = Vec::new();
    let mut stash = Vec::new();
    merger.merge(
        vec![chunk(2, &[update(1, 0, 1), update(2, 0, 1)])],
        vec![chunk(2, &[update(1, 0, -1), update(2, 0, -1)])],
        &mut output,
        &mut stash,
    );
    assert!(contents(&output).is_empty());
}

#[test]
fn extract_splits_at_the_frontier() {
    let mut merger = FlatcontainerMerger::default();
    let merged = vec![
        chunk(3, &[update(1, 0, 1), update(1, 5, 1), update(2, 3, 1)]),
        chunk(2, &[update(3, 2, 1), update(4, 9, 1)]),
    ];
    let upper = Antichain::from_elem(3u64);
    let mut frontier = Antichain::new();
    let mut readied = Vec::new();
    let mut kept = Vec::new();
    let mut stash = Vec::new();
    merger.extract(merged, &upper, &mut frontier, &mut readied, &mut kept, &mut stash);
    assert_eq!(contents(&readied), vec![update(1, 0, 1), update(3, 2, 1)]);
    assert_eq!(contents(&kept), vec![update(1, 5, 1), update(2, 3, 1), update(4, 9, 1)]);
    assert_eq!(frontier.elements(), &[3]);
}

#[test]
fn extract_with_the_empty_frontier_readies_everything() {
    let mut merger = FlatcontainerMerger::default();
    let merged = vec![chunk(2, &[update(1, 0, 1), update(1, 5, 1)])];
    let upper = Antichain::new();
    let mut frontier = Antichain::from_elem(7u64);
    let mut readied = Vec::new();
    let mut kept = Vec::new();
    let mut stash = Vec::new();
    merger.extract(merged, &upper, &mut frontier, &mut readied, &mut kept, &mut stash);
    assert_eq!(contents(&readied), vec![update(1, 0, 1), update(1, 5, 1)]);
    assert!(kept.is_empty());
    assert_eq!(frontier.elements(), &[7]);
}

#[test]
fn extract_lowers_the_frontier_to_the_kept_times() {
    let mut merger = FlatcontainerMerger::default();
    let merged = vec![chunk(3, &[update(1, 8, 1), update(2, 4, 1), update(3, 6, 1)])];
    let upper = Antichain::from_elem(0u64);
    let mut frontier = Antichain::new();
    let mut readied = Vec::new();
    let mut kept = Vec::new();
    let mut stash = Vec::new();
    merger.extract(merged, &upper, &mut frontier, &mut readied, &mut kept, &mut stash);
    assert!(readied.is_empty());
    assert_eq!(contents(&kept).len(), 3);
    assert_eq!(frontier.elements(), &[4]);
}

#[test]
fn batcher_seals_what_is_complete() {
    let mut batcher = MergeBatcher::new();
    batcher.push_chunk(&vec![update(3, 1, 1), update(1, 0, 1), update(2, 5, 1)]);
    batcher.push_chunk(&vec![update(1, 0, 2), update(2, 5, -1), update(4, 2, 1), update(5, 7, 1)]);
    let batch = batcher.seal(&Antichain::from_elem(3u64));
    assert_eq!(batch.lower(), &vec![0]);
    assert_eq!(batch.upper(), &vec![3]);
    assert_eq!(batch.updates(), &vec![update(1, 0, 3), update(3, 1, 1), update(4, 2, 1)]);
    let rest = batcher.seal(&Antichain::new());
    assert_eq!(rest.lower(), &vec![3]);
    assert_eq!(rest.upper(), &Vec::<u64>::new());
    assert_eq!(rest.updates(), &vec![update(5, 7, 1)]);
}

#[test]
fn batcher_gives_the_same_for_any_chunking() {
    let mut all = Vec::new();
    for i in 0..3000u64 {
        all.push(update((i * 7919) % 500, i % 4, if i % 3 == 0 { -1 } else { 1 }));
    }
    let mut whole = MergeBatcher::new();
    whole.push_chunk(&all);
    let expected = whole.seal(&Antichain::new());
    for size in [1usize, 7, 100, 341, 1000] {
        let mut batcher = MergeBatcher::new();
        for piece in all.chunks(size) {
            batcher.push_chunk(&piece.to_vec());
        }
        let batch = batcher.seal(&Antichain::new());
        assert_eq!(batch.updates(), expected.updates());
    }
    let mut reversed = all.clone();
    reversed.reverse();
    let mut batcher = MergeBatcher::new();
    for piece in reversed.chunks(13) {
        batcher.push_chunk(&piece.to_vec());
    }
    assert_eq!(batcher.seal(&Antichain::new()).updates(), expected.updates());
}

#[test]
fn batcher_extract_hands_out_chunks_in_order() {
    let mut batcher = MergeBatcher::new();
    batcher.push_chunk(&vec![update(2, 1, 1), update(1, 9, 1), update(1, 1, 1)]);
    assert_eq!(batcher.lower(), &vec![0]);
    assert!(batcher.frontier().is_empty());
    let ready = batcher.extract(&Antichain::from_elem(5u64));
    assert_eq!(contents(&ready), vec![update(1, 1, 1), update(2, 1, 1)]);
    assert_eq!(batcher.frontier(), vec![9]);
    let later = batcher.extract(&Antichain::new());
    assert_eq!(contents(&later), vec![update(1, 9, 1)]);
}

#[test]
fn merge_with_an_empty_chunk_keeps_every_update() {
    let mut merger = FlatcontainerMerger::default();
    let list1 = vec![chunk(1, &[update(1, 0, 1)]), Chunk::with_capacity(4), chunk(1, &[update(5, 0, 1)])];
    let list2 = vec![chunk(2, &[update(2, 0, 1), update(9, 0, 1)])];
    let mut output = Vec::new();
    let mut stash = Vec::new();
    merger.merge(list1, list2, &mut output, &mut stash);
    let mut merged = contents(&output);
    merged.sort_by_key(|u| (u.data, u.time));
    assert_eq!(merged, vec![update(1, 0, 1), update(2, 0, 1), update(5, 0, 1), update(9, 0, 1)]);
}

#[test]
fn merge_of_nothing_is_nothing() {
    let mut merger = FlatcontainerMerger::default();
    let mut output = Vec::new();
    let mut stash = Vec::new();
    merger.merge(Vec::new(), Vec::new(), &mut output, &mut stash);
    assert!(output.is_empty());
}

#[test]
fn extract_recycles_the_chunks_it_read() {
    let mut merger = FlatcontainerMerger::default();
    let capacity = merger.chunk_capacity();
    let merged = vec![chunk(capacity, &[update(1, 0, 1)]), chunk(capacity, &[update(2, 0, 1)])];
    let mut frontier = Antichain::new();
    let mut readied = Vec::new();
    let mut kept = Vec::new();
    let mut stash = Vec::new();
    merger.extract(merged, &Antichain::from_elem(1u64), &mut frontier, &mut readied, &mut kept, &mut stash);
    assert_eq!(stash.len(), 2);
    for chunk in &stash {
        assert!(chunk.is_empty());
        assert_eq!(chunk.capacity(), capacity);
    }
    assert_eq!(contents(&readied), vec![update(1, 0, 1), update(2, 0, 1)]);
}

#[test]
fn merge_keeps_zero_differences_of_one_list() {
    let mut merger = FlatcontainerMerger::default();
    let list1 = vec![chunk(2, &[update(1, 0, 0), update(3, 0, 1)]), chunk(1, &[update(5, 0, 0)])];
    let list2 = vec![chunk(2, &[update(2, 0, 0), update(3, 0, -1)])];
    let mut forward = Vec::new();
    let mut stash = Vec::new();
    merger.merge(list1, list2, &mut forward, &mut stash);
    assert_eq!(contents(&forward), vec![update(1, 0, 0), update(2, 0, 0), update(5, 0, 0)]);
    let list1 = vec![chunk(2, &[update(1, 0, 0), update(3, 0, 1)]), chunk(1, &[update(5, 0, 0)])];
    let list2 = vec![chunk(2, &[update(2, 0, 0), update(3, 0, -1)])];
    let mut backward = Vec::new();
    merger.merge(list2, list1, &mut backward, &mut stash);
    assert_eq!(contents(&backward), contents(&forward));
}

#[test]
fn merge_carries_over_what_is_left_of_a_list() {
    let mut merger = FlatcontainerMerger::default();
    let list1 = vec![
        chunk(2, &[update(10, 0, 1), update(11, 0, 1)]),
        chunk(2, &[update(12, 0, 1), update(13, 0, 1)]),
        chunk(1, &[update(14, 0, 1)]),
    ];
    let list2 = vec![chunk(2, &[update(1, 0, 1), update(2, 0, 1)])];
    let mut output = Vec::new();
    let mut stash = Vec::new();
    merger.merge(list1, list2, &mut output, &mut stash);
    assert_eq!(
        contents(&output),
        vec![
            update(1, 0, 1),
            update(2, 0, 1),
            update(10, 0, 1),
            update(11, 0, 1),
            update(12, 0, 1),
            update(13, 0, 1),
            update(14, 0, 1)
        ]
    );
}

#[test]
fn merge_puts_out_no_chunk_larger_than_its_own() {
    let mut merger = FlatcontainerMerger::default();
    let capacity = merger.chunk_capacity();
    let first: Vec<Update> = (0..capacity as u64).map(|d| update(2 * d, 0, 1)).collect();
    let second: Vec<Update> = (0..capacity as u64).map(|d| update(2 * d + 1, 0, 1)).collect();
    let list1 = vec![chunk(capacity, &first)];
    let list2 = vec![chunk(capacity, &second)];
    let mut output = Vec::new();
    let mut stash = Vec::new();
    merger.merge(list1, list2, &mut output, &mut stash);
    assert_eq!(contents(&output).len(), 2 * capacity);
    assert!(output.len() >= 2);
    for chunk in &output {
        assert!(chunk.len() <= capacity);
        assert!(!chunk.is_empty());
    }
    for chunk in &stash {
        assert!(chunk.is_empty());
        assert_eq!(chunk.capacity(), capacity);
    }
}

#[test]
fn extract_fills_every_chunk_but_the_last() {
    let mut merger = FlatcontainerMerger::default();
    let capacity = merger.chunk_capacity();
    let count = 2 * capacity + 5;
    let all: Vec<Update> = (0..count as u64).map(|d| update(d, d % 2, 1)).collect();
    let merged: Vec<Chunk> = all.chunks(7).map(|part| chunk(7, part)).collect();
    let upper = Antichain::from_elem(1u64);
    let mut frontier = Antichain::new();
    let mut readied = Vec::new();
    let mut kept = Vec::new();
    let mut stash = Vec::new();
    merger.extract(merged, &upper, &mut frontier, &mut readied, &mut kept, &mut stash);
    let ready: Vec<Update> = all.iter().filter(|u| u.time == 0).cloned().collect();
    let keep: Vec<Update> = all.iter().filter(|u| u.time == 1).cloned().collect();
    assert_eq!(contents(&readied), ready);
    assert_eq!(contents(&kept), keep);
    for list in [&readied, &kept] {
        assert_eq!(list.len(), 2);
        assert_eq!(list[0].len(), capacity);
        assert!(list[1].len() <= capacity);
        assert!(!list[1].is_empty());
    }
}

#[test]
fn batcher_hands_out_full_chunks_but_for_the_last() {
    let capacity = FlatcontainerMerger::default().chunk_capacity();
    let count = 3 * capacity + 7;
    let mut batcher = MergeBatcher::new();
    let all: Vec<Update> = (0..count as u64).rev().map(|d| update(d, 0, 1)).collect();
    for part in all.chunks(100) {
        batcher.push_chunk(&part.to_vec());
    }
    let ready = batcher.extract(&Antichain::new());
    assert_eq!(contents(&ready).len(), count);
    assert_eq!(ready.len(), 4);
    for chunk in &ready[..3] {
        assert_eq!(chunk.len(), capacity);
    }
    assert_eq!(ready[3].len(), 7);
}
