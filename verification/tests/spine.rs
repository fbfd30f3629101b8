use fueled_spine::trace::batch::Batch;
use fueled_spine::trace::batch::Builder;
use fueled_spine::trace::implementations::spine_fueled::Spine;
use fueled_spine::update::Update;
use std::cell::Cell;
use std::cell::RefCell;
use std::rc::Rc;
use timely::dataflow::operators::generic::OperatorInfo;
use timely::scheduling::activate::Activations;
use timely::scheduling::activate::Activator;

fn update(data: u64, time: u64, diff: i64) -> Update {
    Update { data, time, diff }
}

fn batch(lower: &[u64], upper: &[u64], updates: &[(u64, u64, i64)]) -> Batch {
    let mut builder = Builder::new();
    for (data, time, diff) in updates {
        builder.push(*data, *time, *diff);
    }
    builder.done(lower, upper, &[0])
}

fn info() -> OperatorInfo {
    OperatorInfo::new(0, 0, Rc::from(Vec::<usize>::new()))
}

fn read(spine: &mut Spine, upper: &[u64]) -> Option<Vec<Update>> {
    match spine.cursor_through(upper) {
        Some((mut cursor, storage)) => Some(cursor.collect(&storage)),
        None => None,
    }
}

/// Inserts `count` batches of one update each and releases each at once.
fn insert_units(spine: &mut Spine, from: u64, count: u64) {
    for time in from..from + count {
        spine.insert(batch(&[time], &[time + 1], &[(time, time, 1)]));
        spine.distinguish_since(&[time + 1]);
    }
}

#[test]
fn a_new_spine_is_empty() {
    let mut spine = Spine::new(info(), None);
    assert_eq!(spine.upper(), &[0]);
    assert_eq!(spine.advance_frontier(), &[0]);
    assert_eq!(spine.distinguish_frontier(), &[0]);
    assert!(spine.describe().is_empty());
    assert!(spine.reduced());
    assert_eq!(read(&mut spine, &[0]), Some(Vec::new()));
    assert!(spine.map_batches(|b| b.len()).is_empty());
}

#[test]
fn with_effort_takes_zero_for_one() {
    let mut zero = Spine::with_effort(0, info(), None);
    let mut one = Spine::with_effort(1, info(), None);
    for spine in [&mut zero, &mut one] {
        spine.insert(batch(&[0], &[1], &[(1, 0, 1), (2, 0, 1), (3, 0, 1), (4, 0, 1)]));
        spine.insert(batch(&[1], &[2], &[(5, 1, 1), (6, 1, 1), (7, 1, 1), (8, 1, 1)]));
        spine.distinguish_since(&[2]);
        insert_units(spine, 2, 1);
    }
    assert_eq!(zero.describe(), one.describe());
}

#[test]
fn cancellation() {
    let mut spine = Spine::new(info(), None);
    spine.insert(batch(&[0], &[2], &[(1, 0, 1), (1, 1, -1)]));
    spine.advance_by(&[2]);
    assert_eq!(read(&mut spine, &[2]), Some(Vec::new()));
}

#[test]
fn cancellation_across_batches() {
    let mut spine = Spine::new(info(), None);
    spine.insert(batch(&[0], &[1], &[(1, 0, 1)]));
    spine.insert(batch(&[1], &[2], &[(1, 1, -1)]));
    spine.advance_by(&[2]);
    assert_eq!(read(&mut spine, &[2]), Some(Vec::new()));
}

#[test]
fn frontier_collapse() {
    let mut spine = Spine::new(info(), None);
    spine.insert(batch(&[0], &[2], &[(7, 0, 1), (7, 1, 1)]));
    spine.advance_by(&[2]);
    spine.distinguish_since(&[2]);
    spine.insert(batch(&[2], &[3], &[(9, 2, 1)]));
    spine.distinguish_since(&[3]);
    let mut effort: isize = 2;
    spine.exert(&mut effort);
    let batches = spine.map_batches(|b| b.duplicate());
    assert_eq!(batches.len(), 1);
    assert_eq!(batches[0].updates(), &vec![update(7, 2, 2), update(9, 2, 1)]);
    assert_eq!(batches[0].lower(), &vec![0]);
    assert_eq!(batches[0].upper(), &vec![3]);
}

#[test]
fn zero_suppression() {
    let mut spine = Spine::new(info(), None);
    spine.insert(batch(&[0], &[1], &[(4, 0, 1), (5, 0, 1)]));
    spine.insert(batch(&[1], &[2], &[(4, 0, -1)]));
    assert_eq!(read(&mut spine, &[2]), Some(vec![update(5, 0, 1)]));
    spine.distinguish_since(&[2]);
    assert_eq!(read(&mut spine, &[2]), Some(vec![update(5, 0, 1)]));
}

#[test]
fn tiered_growth() {
    let mut spine = Spine::new(info(), None);
    insert_units(&mut spine, 0, 1024);
    let layers = spine.describe();
    assert!(layers.len() <= 11);
    let total: usize = layers.iter().map(|(_, len)| *len).sum();
    assert_eq!(total, 1024);
    let mut effort: isize = 1;
    let mut rounds = 0;
    while !spine.reduced() {
        spine.exert(&mut effort);
        rounds += 1;
        assert!(rounds < 4096);
    }
    let layers = spine.describe();
    assert!(layers.len() <= 11);
    assert_eq!(layers[10], (1, 1024));
    for (index, (kind, len)) in layers.iter().enumerate() {
        assert!(*kind <= 2);
        assert!(*len <= (*kind) << index);
    }
}

#[test]
fn fueled_completion() {
    let mut spine = Spine::new(info(), None);
    let mut first: Vec<(u64, u64, i64)> = Vec::new();
    let mut second: Vec<(u64, u64, i64)> = Vec::new();
    for i in 0..32u64 {
        first.push((i, 0, 1));
        second.push((100 + i, 1, 1));
    }
    spine.insert(batch(&[0], &[1], &first));
    spine.insert(batch(&[1], &[2], &second));
    spine.distinguish_since(&[2]);
    assert_eq!(spine.describe()[5], (2, 64));
    assert!(!spine.reduced());
    let mut inserted = 0;
    while spine.describe().len() > 5 && spine.describe()[5].0 == 2 {
        insert_units(&mut spine, 2 + inserted, 1);
        inserted += 1;
        assert!(inserted < 32);
    }
    assert!(inserted < 32);
    let layers = spine.describe();
    assert_eq!(layers[6], (1, 64));
}

#[test]
fn straddle_detection() {
    let mut spine = Spine::new(info(), None);
    spine.distinguish_since(&[0]);
    spine.insert(batch(&[0], &[5], &[(1, 1, 1)]));
    spine.insert(batch(&[5], &[10], &[(2, 6, 1)]));
    assert!(spine.straddled_by(&[7]));
    assert!(spine.straddled_by(&[3]));
    assert!(!spine.straddled_by(&[0]));
    assert!(!spine.straddled_by(&[5]));
    assert!(!spine.straddled_by(&[10]));
    assert_eq!(read(&mut spine, &[5]), Some(vec![update(1, 1, 1)]));
    assert_eq!(read(&mut spine, &[10]), Some(vec![update(1, 1, 1), update(2, 6, 1)]));
}

#[test]
fn a_cursor_at_the_distinguish_frontier() {
    let mut spine = Spine::new(info(), None);
    spine.insert(batch(&[0], &[5], &[(1, 1, 1)]));
    spine.distinguish_since(&[5]);
    assert_eq!(read(&mut spine, &[5]), Some(vec![update(1, 1, 1)]));
    assert_eq!(read(&mut spine, &[8]), Some(vec![update(1, 1, 1)]));
}

#[test]
fn a_closed_trace_holds_nothing() {
    let mut spine = Spine::new(info(), None);
    spine.insert(batch(&[0], &[5], &[(1, 1, 1)]));
    spine.advance_by(&[]);
    assert!(spine.advance_frontier().is_empty());
    assert!(spine.describe().is_empty());
    assert!(spine.map_batches(|b| b.len()).is_empty());
}

#[test]
fn empty_batches_are_left_out_of_cursors() {
    let mut spine = Spine::new(info(), None);
    spine.insert(batch(&[0], &[0], &[]));
    spine.insert(batch(&[0], &[3], &[(1, 1, 1)]));
    match spine.cursor_through(&[3]) {
        Some((_, storage)) => assert_eq!(storage.len(), 1),
        None => panic!("no cursor"),
    }
    assert_eq!(spine.map_batches(|b| b.len()), vec![0, 1]);
}

#[test]
fn every_layer_is_vacant_single_or_double() {
    let mut spine = Spine::new(info(), None);
    for round in 0..200u64 {
        insert_units(&mut spine, round, 1);
        for (index, (kind, len)) in spine.describe().iter().enumerate() {
            assert!(*kind <= 2);
            if *kind == 0 {
                assert_eq!(*len, 0);
            }
            assert!(*len <= (*kind) << index);
        }
    }
}

#[test]
fn below_a_merge_less_is_accounted_than_its_layer() {
    let mut spine = Spine::new(info(), None);
    let sizes = [5u64, 1, 1, 9, 2, 1, 1, 1, 30, 1, 4, 1, 1, 1, 1, 7, 64, 1, 1, 3];
    let mut time = 0;
    let mut data = 0;
    for round in 0..10 {
        for size in sizes {
            let mut updates = Vec::new();
            for _ in 0..size {
                updates.push((data, time, 1));
                data += 1;
            }
            spine.insert(batch(&[time], &[time + 1], &updates));
            spine.distinguish_since(&[time + 1]);
            time += 1;
            let layers = spine.describe();
            let mut accounted: usize = 0;
            for (index, (kind, _)) in layers.iter().enumerate() {
                if *kind == 2 {
                    assert!(accounted < (1 << index));
                }
                accounted += (*kind) << index;
            }
        }
        let mut effort: isize = 1 << (round % 5);
        spine.exert(&mut effort);
    }
    let total: u64 = spine.map_batches(|b| b.len() as u64).iter().sum();
    assert_eq!(total, data);
}

#[test]
fn live_batches_follow_one_another() {
    let mut spine = Spine::new(info(), None);
    let mut time = 0;
    for round in 0..300u64 {
        let size = 1 + (round * 7) % 5;
        let mut updates = Vec::new();
        for i in 0..size {
            updates.push((round * 10 + i, time, 1));
        }
        spine.insert(batch(&[time], &[time + 2], &updates));
        time += 2;
        if round % 3 == 0 {
            spine.distinguish_since(&[time]);
        }
        let bounds = spine.map_batches(|b| (b.lower().clone(), b.upper().clone()));
        for pair in bounds.windows(2) {
            assert_eq!(pair[0].1, pair[1].0);
        }
        assert_eq!(bounds[0].0, vec![0]);
        assert_eq!(bounds[bounds.len() - 1].1, vec![time]);
    }
}

#[test]
fn cursor_yields_updates_in_order_without_zeros() {
    let mut spine = Spine::new(info(), None);
    let mut time = 0;
    for round in 0..100u64 {
        let mut updates = Vec::new();
        for i in 0..(1 + round % 4) {
            updates.push(((round * 3 + i) % 17, time, if (round + i) % 2 == 0 { 1 } else { -1 }));
        }
        spine.insert(batch(&[time], &[time + 1], &updates));
        time += 1;
        spine.distinguish_since(&[time]);
    }
    let updates = read(&mut spine, &[time]).unwrap();
    for pair in updates.windows(2) {
        assert!((pair[0].data, pair[0].time) < (pair[1].data, pair[1].time));
    }
    for u in &updates {
        assert_ne!(u.diff, 0);
    }
}

#[test]
fn round_trip() {
    let mut all: Vec<(u64, u64, i64)> = Vec::new();
    for i in 0..500u64 {
        all.push(((i * 31) % 40, i / 50, if i % 4 == 0 { -2 } else { 1 }));
    }
    let mut expected = std::collections::BTreeMap::new();
    for (data, time, diff) in &all {
        *expected.entry((*data, *time)).or_insert(0i64) += *diff;
    }
    let expected: Vec<Update> = expected.into_iter().filter(|(_, diff)| *diff != 0).map(|((data, time), diff)| update(data, time, diff)).collect();
    for release in [false, true] {
        let mut spine = Spine::new(info(), None);
        for time in 0..10u64 {
            let updates: Vec<(u64, u64, i64)> = all.iter().filter(|u| u.1 == time).cloned().collect();
            spine.insert(batch(&[time], &[time + 1], &updates));
            if release {
                spine.distinguish_since(&[time + 1]);
                let mut effort: isize = 4;
                spine.exert(&mut effort);
            }
        }
        assert_eq!(read(&mut spine, &[10]), Some(expected.clone()));
    }
}

#[test]
fn advance_by_is_idempotent() {
    let mut spine = Spine::new(info(), None);
    insert_units(&mut spine, 0, 7);
    spine.advance_by(&[3]);
    let once = (spine.describe(), spine.advance_frontier().to_vec(), spine.map_batches(|b| b.updates().clone()));
    spine.advance_by(&[3]);
    let twice = (spine.describe(), spine.advance_frontier().to_vec(), spine.map_batches(|b| b.updates().clone()));
    assert_eq!(once, twice);
    assert_eq!(spine.advance_frontier(), &[3]);
    spine.advance_by(&[]);
    let closed = spine.describe();
    spine.advance_by(&[]);
    assert_eq!(spine.describe(), closed);
    assert!(closed.is_empty());
}

#[test]
fn merges_after_advance_by_advance_times() {
    let mut spine = Spine::new(info(), None);
    spine.advance_by(&[6]);
    insert_units(&mut spine, 0, 16);
    let mut effort: isize = 64;
    spine.exert(&mut effort);
    let batches = spine.map_batches(|b| b.duplicate());
    let mut merged = 0;
    for b in &batches {
        for u in b.updates() {
            for f in b.since() {
                assert_eq!(fueled_spine::lattice::join(*f, u.time), u.time);
            }
        }
        if b.since() == &vec![6] {
            merged += 1;
        }
    }
    assert!(merged > 0);
}

#[test]
fn close_inserts_a_last_empty_batch() {
    let mut spine = Spine::new(info(), None);
    spine.insert(batch(&[0], &[4], &[(1, 1, 1)]));
    spine.close();
    assert_eq!(spine.upper(), &[4]);
    let bounds = spine.map_batches(|b| (b.lower().clone(), b.upper().clone(), b.len()));
    assert_eq!(bounds, vec![(vec![0], vec![4], 1), (vec![4], vec![4], 0)]);
}

#[test]
fn apply_fuel_completes_merges() {
    let mut spine = Spine::new(info(), None);
    spine.insert(batch(&[0], &[1], &[(1, 0, 1), (2, 0, 1), (3, 0, 1), (4, 0, 1)]));
    spine.insert(batch(&[1], &[2], &[(5, 1, 1), (6, 1, 1), (7, 1, 1), (8, 1, 1)]));
    spine.distinguish_since(&[2]);
    assert_eq!(spine.describe(), vec![(0, 0), (0, 0), (2, 8)]);
    let mut fuel: isize = 3;
    spine.apply_fuel(&mut fuel);
    assert_eq!(fuel, 3);
    assert_eq!(spine.describe(), vec![(0, 0), (0, 0), (2, 8)]);
    let mut fuel: isize = 6;
    spine.apply_fuel(&mut fuel);
    assert_eq!(spine.describe(), vec![(0, 0), (0, 0), (0, 0), (1, 8)]);
}

#[test]
fn introduce_batch_puts_a_placeholder() {
    let mut spine = Spine::new(info(), None);
    spine.introduce_batch(None, 3);
    assert_eq!(spine.describe(), vec![(1, 0)]);
    assert!(spine.reduced());
    assert!(spine.map_batches(|b| b.len()).is_empty());
}

#[test]
fn exert_asks_to_be_scheduled_again() {
    let activations = Rc::new(RefCell::new(Activations::new(std::time::Instant::now())));
    let activator = Activator::new(Rc::from(vec![3usize]), activations.clone());
    let mut spine = Spine::new(info(), Some(activator));
    assert!(spine.activator().is_some());
    let mut effort: isize = 1;
    // A spine without batches is reduced, and so is one with one batch.
    assert_eq!(spine.exert(&mut effort), 0);
    assert_eq!(spine.distinguish_since(&[9]), 0);
    assert_eq!(spine.insert(batch(&[0], &[1], &[(1, 0, 1)])), 0);
    assert_eq!(spine.exert(&mut effort), 0);
    let count = Cell::new(0);
    activations.borrow_mut().advance();
    activations.borrow().map_active(|_| count.set(count.get() + 1));
    assert_eq!(count.get(), 0);
    // A second batch waits, and is then released into a merge.
    assert_eq!(spine.distinguish_since(&[0]), 0);
    assert_eq!(spine.insert(batch(&[1], &[2], &[(2, 1, 1)])), 0);
    assert_eq!(spine.distinguish_since(&[2]), 1);
    let asks = spine.exert(&mut effort);
    assert_eq!(asks, 1);
    assert_eq!(effort, 1);
    for _ in 0..asks {
        if let Some(handle) = spine.activator() {
            handle.activate();
        }
    }
    activations.borrow_mut().advance();
    activations.borrow().map_active(|path| {
        assert_eq!(path, &[3]);
        count.set(count.get() + 1)
    });
    assert_eq!(count.get(), 1);
}

#[test]
fn fuel_that_is_not_positive_changes_nothing() {
    let mut spine = Spine::new(info(), None);
    spine.insert(batch(&[0], &[1], &[(1, 0, 1), (2, 0, 1)]));
    spine.insert(batch(&[1], &[2], &[(3, 1, 1), (4, 1, 1)]));
    spine.distinguish_since(&[2]);
    let before = spine.describe();
    assert_eq!(before, vec![(0, 0), (2, 4)]);
    let mut fuel: isize = 0;
    spine.apply_fuel(&mut fuel);
    let mut fuel: isize = -5;
    spine.apply_fuel(&mut fuel);
    assert_eq!(fuel, -5);
    assert_eq!(spine.describe(), before);
}

#[test]
fn waiting_batches_are_released_in_order() {
    let mut spine = Spine::new(info(), None);
    spine.insert(batch(&[0], &[3], &[(1, 0, 1)]));
    spine.insert(batch(&[3], &[6], &[(2, 3, 1)]));
    spine.insert(batch(&[6], &[9], &[(3, 6, 1)]));
    assert!(spine.describe().is_empty());
    spine.distinguish_since(&[4]);
    assert_eq!(spine.describe(), vec![(1, 1)]);
    spine.distinguish_since(&[9]);
    let total: usize = spine.describe().iter().map(|(_, len)| *len).sum();
    assert_eq!(total, 3);
    assert_eq!(spine.map_batches(|b| b.lower().clone())[0], vec![0]);
}

#[test]
fn exert_on_a_reduced_spine_does_nothing() {
    let mut spine = Spine::new(info(), None);
    spine.insert(batch(&[0], &[1], &[(1, 0, 1)]));
    spine.distinguish_since(&[1]);
    let before = spine.describe();
    let mut effort: isize = 1000;
    spine.exert(&mut effort);
    assert_eq!(effort, 1000);
    assert_eq!(spine.describe(), before);
}

#[test]
fn what_the_spine_accumulates_is_what_was_inserted() {
    let mut spine = Spine::new(info(), None);
    let mut expected = std::collections::BTreeMap::new();
    for time in 0..64u64 {
        let mut updates = Vec::new();
        for i in 0..(1 + time % 3) {
            let data = (time * 5 + i) % 9;
            updates.push((data, time, 1 + i as i64));
            *expected.entry(data).or_insert(0i64) += 1 + i as i64;
        }
        spine.insert(batch(&[time], &[time + 1], &updates));
        spine.distinguish_since(&[time + 1]);
        if time == 20 {
            spine.advance_by(&[15]);
        }
        if time == 40 {
            spine.advance_by(&[38]);
        }
    }
    let mut found = std::collections::BTreeMap::new();
    for updates in spine.map_batches(|b| b.updates().clone()) {
        for u in updates {
            *found.entry(u.data).or_insert(0i64) += u.diff;
        }
    }
    assert_eq!(found, expected);
}

#[test]
fn exert_puts_a_placeholder_below_what_it_rolls_up() {
    let mut spine = Spine::new(info(), None);
    spine.insert(batch(&[0], &[1], &[(1, 0, 1), (2, 0, 1), (3, 0, 1)]));
    spine.insert(batch(&[1], &[2], &[(4, 1, 1)]));
    spine.distinguish_since(&[2]);
    assert_eq!(spine.describe(), vec![(1, 1), (0, 0), (1, 3)]);
    let mut effort: isize = 4;
    spine.exert(&mut effort);
    assert_eq!(spine.describe(), vec![(0, 0), (0, 0), (1, 0), (1, 4)]);
}

#[test]
fn tidying_moves_a_small_highest_batch_down() {
    let mut spine = Spine::new(info(), None);
    spine.introduce_batch(Some(batch(&[0], &[0], &[(1, 0, 1), (2, 0, 1), (3, 0, 1)])), 6);
    assert_eq!(spine.describe(), vec![(0, 0), (0, 0), (1, 3)]);
    spine.introduce_batch(None, 0);
    assert_eq!(spine.describe(), vec![(1, 0), (0, 0), (1, 3)]);
}

#[test]
fn a_released_batch_goes_to_the_layer_of_its_size() {
    let sizes: [(u64, usize); 6] = [(0, 0), (1, 0), (2, 1), (3, 2), (5, 3), (9, 4)];
    for (size, layer) in sizes {
        let mut spine = Spine::new(info(), None);
        spine.insert(batch(&[0], &[1], &[(100, 0, 1), (101, 0, 1), (102, 0, 1), (103, 0, 1), (104, 0, 1), (105, 0, 1), (106, 0, 1), (107, 0, 1), (108, 0, 1), (109, 0, 1), (110, 0, 1), (111, 0, 1), (112, 0, 1), (113, 0, 1), (114, 0, 1), (115, 0, 1), (116, 0, 1), (117, 0, 1), (118, 0, 1), (119, 0, 1), (120, 0, 1), (121, 0, 1), (122, 0, 1), (123, 0, 1), (124, 0, 1), (125, 0, 1), (126, 0, 1), (127, 0, 1), (128, 0, 1), (129, 0, 1), (130, 0, 1), (131, 0, 1), (132, 0, 1)]));
        spine.distinguish_since(&[1]);
        assert_eq!(spine.describe().len(), 7);
        let updates: Vec<(u64, u64, i64)> = (0..size).map(|i| (i, 1, 1)).collect();
        spine.insert(batch(&[1], &[2], &updates));
        spine.distinguish_since(&[2]);
        let layers = spine.describe();
        assert_eq!(layers[layer], (1, size as usize));
        for lower in 0..layer {
            assert_eq!(layers[lower], (0, 0));
        }
        assert_eq!(layers[6], (1, 33));
    }
}

#[test]
fn fuel_completes_a_merge_with_less_work_left() {
    let mut spine = Spine::new(info(), None);
    spine.insert(batch(&[0], &[1], &[(1, 0, 1), (2, 0, 1), (3, 0, 1), (4, 0, 1)]));
    spine.insert(batch(&[1], &[2], &[(5, 1, 1), (6, 1, 1), (7, 1, 1), (8, 1, 1)]));
    spine.distinguish_since(&[2]);
    assert_eq!(spine.describe(), vec![(0, 0), (0, 0), (2, 8)]);
    let mut fuel: isize = 8;
    spine.apply_fuel(&mut fuel);
    assert_eq!(spine.describe(), vec![(0, 0), (0, 0), (2, 8)]);
    let mut fuel: isize = 1;
    spine.apply_fuel(&mut fuel);
    assert_eq!(spine.describe(), vec![(0, 0), (0, 0), (0, 0), (1, 8)]);
}

#[test]
fn a_merge_begun_after_advance_by_advances_to_the_frontier() {
    let mut spine = Spine::new(info(), None);
    spine.insert(batch(&[0], &[2], &[(7, 0, 1), (7, 1, 1)]));
    spine.distinguish_since(&[2]);
    spine.advance_by(&[2]);
    spine.insert(batch(&[2], &[3], &[(8, 2, 1), (9, 2, 1)]));
    spine.distinguish_since(&[3]);
    assert_eq!(spine.describe(), vec![(0, 0), (2, 4)]);
    let mut fuel: isize = 100;
    spine.apply_fuel(&mut fuel);
    let batches = spine.map_batches(|b| b.duplicate());
    assert_eq!(batches.len(), 1);
    assert_eq!(batches[0].since(), &vec![2]);
    assert_eq!(batches[0].updates(), &vec![update(7, 2, 2), update(8, 2, 1), update(9, 2, 1)]);
}

#[test]
fn rolling_up_one_batch_merges_it_at_once() {
    let mut spine = Spine::new(info(), None);
    spine.insert(batch(&[0], &[2], &[(7, 0, 1), (7, 1, 1)]));
    spine.distinguish_since(&[2]);
    spine.insert(batch(&[2], &[3], &[(7, 2, -1)]));
    spine.distinguish_since(&[3]);
    assert_eq!(spine.describe(), vec![(1, 1), (1, 2)]);
    spine.advance_by(&[3]);
    spine.insert(batch(&[3], &[4], &[(8, 3, 1), (9, 3, 1)]));
    spine.distinguish_since(&[4]);
    assert_eq!(spine.describe(), vec![(0, 0), (1, 2), (1, 1)]);
    let batches = spine.map_batches(|b| b.duplicate());
    assert_eq!(batches.len(), 2);
    assert_eq!(batches[0].lower(), &vec![0]);
    assert_eq!(batches[0].upper(), &vec![3]);
    assert_eq!(batches[0].since(), &vec![3]);
    assert_eq!(batches[0].updates(), &vec![update(7, 3, 1)]);
    assert_eq!(batches[1].updates(), &vec![update(8, 3, 1), update(9, 3, 1)]);
}

#[test]
fn a_batch_put_onto_a_single_batch_begins_a_merge() {
    let mut spine = Spine::new(info(), None);
    spine.insert(batch(&[0], &[2], &[(7, 0, 1), (7, 1, 1)]));
    spine.distinguish_since(&[2]);
    assert_eq!(spine.describe(), vec![(0, 0), (1, 2)]);
    spine.insert(batch(&[2], &[3], &[(8, 2, 1), (9, 2, 1)]));
    spine.distinguish_since(&[3]);
    assert_eq!(spine.describe(), vec![(0, 0), (2, 4)]);
    let batches = spine.map_batches(|b| b.duplicate());
    assert_eq!(batches.len(), 2);
    assert_eq!(batches[0].updates(), &vec![update(7, 0, 1), update(7, 1, 1)]);
    assert_eq!(batches[1].updates(), &vec![update(8, 2, 1), update(9, 2, 1)]);
}

#[test]
fn a_spine_without_a_handle_still_says_when_it_asks() {
    let mut spine = Spine::new(info(), None);
    assert!(spine.activator().is_none());
    assert_eq!(spine.insert(batch(&[0], &[1], &[(1, 0, 1)])), 0);
    assert_eq!(spine.insert(batch(&[1], &[2], &[(2, 1, 1)])), 0);
    assert_eq!(spine.insert(batch(&[2], &[3], &[(3, 2, 1)])), 0);
    // Three batches are released at once; the spine is left not reduced
    // after the second and after the third.
    assert_eq!(spine.distinguish_since(&[3]), 2);
    assert_eq!(spine.close(), 1);
}

#[test]
fn a_placeholder_put_onto_a_batch_makes_a_complete_merge() {
    let mut spine = Spine::new(info(), None);
    spine.insert(batch(&[0], &[1], &[(1, 0, 1)]));
    spine.distinguish_since(&[1]);
    assert_eq!(spine.describe(), vec![(1, 1)]);
    spine.introduce_batch(None, 0);
    assert_eq!(spine.describe(), vec![(2, 1)]);
    assert!(!spine.reduced());
    let batches = spine.map_batches(|b| b.duplicate());
    assert_eq!(batches.len(), 1);
    assert_eq!(batches[0].updates(), &vec![update(1, 0, 1)]);
    // The next introduction moves what the merge came to into the layer above.
    spine.introduce_batch(None, 0);
    assert_eq!(spine.describe(), vec![(1, 0), (1, 1)]);
}

#[test]
fn what_is_rolled_up_into_a_vacant_layer_meets_the_batch_there() {
    let mut spine = Spine::new(info(), None);
    spine.insert(batch(&[0], &[1], &[(1, 0, 1)]));
    spine.distinguish_since(&[1]);
    assert_eq!(spine.describe(), vec![(1, 1)]);
    spine.introduce_batch(None, 3);
    assert_eq!(spine.describe(), vec![(0, 0), (0, 0), (0, 0), (2, 1)]);
    assert_eq!(spine.map_batches(|b| b.len()), vec![1]);
}

#[test]
fn a_batch_put_where_a_merge_stood_stands_alone() {
    let mut spine = Spine::new(info(), None);
    insert_units(&mut spine, 0, 2);
    assert_eq!(spine.describe(), vec![(2, 2)]);
    spine.insert(batch(&[2], &[3], &[(2, 2, 1)]));
    spine.distinguish_since(&[3]);
    assert_eq!(spine.describe(), vec![(1, 1), (1, 2)]);
    let batches = spine.map_batches(|b| b.duplicate());
    assert_eq!(batches.len(), 2);
    assert_eq!(batches[0].lower(), &vec![0]);
    assert_eq!(batches[0].upper(), &vec![2]);
    assert_eq!(batches[1].updates(), &vec![update(2, 2, 1)]);
}
