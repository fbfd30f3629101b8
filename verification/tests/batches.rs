use fueled_spine::trace::batch::Batch;
use fueled_spine::trace::batch::Builder;
use fueled_spine::trace::cursor::Cursor;
use fueled_spine::trace::cursor::CursorList;
use fueled_spine::update::Update;

fn update(data: u64, time: u64, diff: i64) -> Update {
    Update { data, time, diff }
}

fn batch(lower: &[u64], upper: &[u64], updates: &[(u64, u64, i64)]) -> Batch {
    let mut builder = Builder::new();
    for (data, time, diff) in updates {
        builder.push(*data, *time, *diff);
    }
    builder.done(lower, upper, &[0])
}

#[test]
fn builder_consolidates_what_was_pushed() {
    let built = batch(&[0], &[5], &[(3, 1, 1), (1, 2, 1), (3, 1, 1), (2, 0, 7), (2, 0, -7)]);
    assert_eq!(built.updates(), &vec![update(1, 2, 1), update(3, 1, 2)]);
    assert_eq!(built.len(), 2);
    assert_eq!(built.lower(), &vec![0]);
    assert_eq!(built.upper(), &vec![5]);
    assert_eq!(built.since(), &vec![0]);
    assert!(!built.is_empty());
}

#[test]
fn builder_advances_times_to_since() {
    let mut builder = Builder::new();
    builder.push(1, 0, 1);
    builder.push(1, 1, 1);
    builder.push(1, 5, 1);
    let built = builder.done(&[0], &[6], &[3]);
    assert_eq!(built.updates(), &vec![update(1, 3, 2), update(1, 5, 1)]);
    assert_eq!(built.since(), &vec![3]);
}

#[test]
fn a_batch_is_empty_where_its_bounds_coincide() {
    let built = batch(&[4], &[4], &[]);
    assert!(built.is_empty());
    assert_eq!(built.len(), 0);
    let copy = built.duplicate();
    assert!(copy.is_empty());
    assert_eq!(copy.lower(), &vec![4]);
}

#[test]
fn merge_combines_equal_keys_and_drops_zeros() {
    let first = batch(&[0], &[2], &[(1, 0, 1), (2, 0, 1), (3, 1, 4)]);
    let second = batch(&[2], &[4], &[(1, 2, 1), (2, 0, -1), (3, 1, 1)]);
    let mut merger = Batch::begin_merge(&first, &second);
    let mut fuel: isize = 100;
    merger.work(&first, &second, &None, &mut fuel);
    assert_eq!(fuel, 94);
    let merged = merger.done();
    assert_eq!(merged.updates(), &vec![update(1, 0, 1), update(1, 2, 1), update(3, 1, 5)]);
    assert_eq!(merged.lower(), &vec![0]);
    assert_eq!(merged.upper(), &vec![4]);
    assert_eq!(merged.since(), &Vec::<u64>::new());
}

#[test]
fn merge_stops_when_the_fuel_is_used_up() {
    let first = batch(&[0], &[2], &[(1, 0, 1), (2, 0, 1), (3, 0, 1)]);
    let second = batch(&[2], &[4], &[(4, 2, 1), (5, 2, 1)]);
    let mut merger = Batch::begin_merge(&first, &second);
    let mut fuel: isize = 2;
    merger.work(&first, &second, &None, &mut fuel);
    assert_eq!(fuel, 0);
    let mut fuel: isize = 0;
    merger.work(&first, &second, &None, &mut fuel);
    assert_eq!(fuel, 0);
    let mut fuel: isize = 4;
    merger.work(&first, &second, &None, &mut fuel);
    assert_eq!(fuel, 1);
    let merged = merger.done();
    assert_eq!(merged.len(), 5);
}

#[test]
fn frontier_collapse_coalesces_updates() {
    let first = batch(&[0], &[2], &[(7, 0, 1), (7, 1, 1)]);
    let second = batch(&[2], &[2], &[]);
    let mut merger = Batch::begin_merge(&first, &second);
    let mut fuel: isize = 10;
    merger.work(&first, &second, &Some(vec![2]), &mut fuel);
    let merged = merger.done();
    assert_eq!(merged.updates(), &vec![update(7, 2, 2)]);
    assert_eq!(merged.since(), &vec![2]);
}

#[test]
fn merged_times_are_advanced_to_the_frontier() {
    let first = batch(&[0], &[4], &[(1, 0, 1), (1, 3, 1), (2, 1, 1), (2, 9, 1)]);
    let second = batch(&[4], &[12], &[(1, 5, 1), (3, 11, 1)]);
    let mut merger = Batch::begin_merge(&first, &second);
    let mut fuel: isize = 100;
    merger.work(&first, &second, &Some(vec![4, 6]), &mut fuel);
    let merged = merger.done();
    assert_eq!(merged.since(), &vec![4, 6]);
    for u in merged.updates() {
        for f in merged.since() {
            assert_eq!(fueled_spine::lattice::join(*f, u.time), u.time);
        }
    }
    assert_eq!(merged.updates(), &vec![update(1, 6, 3), update(2, 6, 1), update(2, 9, 1), update(3, 11, 1)]);
}

#[test]
fn cursor_walks_forward() {
    let built = batch(&[0], &[5], &[(1, 0, 1), (2, 0, 2), (2, 3, 3), (4, 1, 4)]);
    let mut cursor = built.cursor();
    assert!(cursor.key_valid(&built));
    assert_eq!(cursor.key(&built), (1, 0));
    assert_eq!(cursor.diff(&built), 1);
    cursor.step_key(&built);
    assert_eq!(cursor.update(&built), update(2, 0, 2));
    cursor.seek_key(&built, 2, 1);
    assert_eq!(cursor.key(&built), (2, 3));
    cursor.seek_key(&built, 2, 3);
    assert_eq!(cursor.key(&built), (2, 3));
    cursor.seek_key(&built, 3, 0);
    assert_eq!(cursor.key(&built), (4, 1));
    cursor.seek_key(&built, 9, 9);
    assert!(!cursor.key_valid(&built));
    cursor.step_key(&built);
    assert!(!cursor.key_valid(&built));
    cursor.rewind_keys();
    assert_eq!(cursor.key(&built), (1, 0));
}

#[test]
fn cursor_list_merges_batches() {
    let storage = vec![
        batch(&[0], &[2], &[(1, 0, 1), (3, 1, 1), (5, 0, 2)]),
        batch(&[2], &[4], &[(2, 2, 1), (3, 1, -1), (5, 0, 1)]),
        batch(&[4], &[6], &[(0, 4, 1), (5, 0, 1)]),
    ];
    let cursors: Vec<Cursor> = storage.iter().map(|b| b.cursor()).collect();
    let mut list = CursorList::new(cursors, &storage, &[0]);
    assert_eq!(list.next(&storage), Some(update(0, 4, 1)));
    assert_eq!(list.next(&storage), Some(update(1, 0, 1)));
    assert_eq!(list.next(&storage), Some(update(2, 2, 1)));
    assert_eq!(list.next(&storage), Some(update(5, 0, 4)));
    assert_eq!(list.next(&storage), None);
    assert_eq!(list.next(&storage), None);
}

#[test]
fn cursor_list_advances_times() {
    let storage = vec![batch(&[0], &[2], &[(1, 0, 1), (1, 1, -1), (2, 0, 1), (2, 1, 1)])];
    let cursors: Vec<Cursor> = storage.iter().map(|b| b.cursor()).collect();
    let mut list = CursorList::new(cursors, &storage, &[2]);
    assert_eq!(list.collect(&storage), vec![update(2, 2, 2)]);
}

#[test]
fn cursor_list_over_nothing_yields_nothing() {
    let storage: Vec<Batch> = Vec::new();
    let mut list = CursorList::new(Vec::new(), &storage, &[0]);
    assert_eq!(list.next(&storage), None);
    assert!(list.collect(&storage).is_empty());
}
