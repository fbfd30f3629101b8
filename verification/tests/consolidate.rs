use fueled_spine::operators::consolidate::Collection;
use fueled_spine::update::Update;

fn update(data: u64, time: u64, diff: i64) -> Update {
    Update { data, time, diff }
}

#[test]
fn consolidate_adds_up_equal_records() {
    let collection = Collection::new(vec![update(2, 0, 1), update(1, 0, 1), update(2, 0, 3), update(1, 1, -1)]);
    let result = collection.consolidate();
    assert_eq!(result.updates(), &vec![update(1, 0, 1), update(1, 1, -1), update(2, 0, 4)]);
}

#[test]
fn consolidate_drops_what_cancels() {
    let mut updates = Vec::new();
    for data in 1..10u64 {
        updates.push(update(data, 0, 1));
    }
    for data in 1..10u64 {
        updates.push(update(data, 0, -1));
    }
    let result = Collection::new(updates).consolidate();
    assert!(result.updates().is_empty());
}

#[test]
fn consolidate_named_is_consolidate() {
    let mut updates = Vec::new();
    for i in 0..5000u64 {
        updates.push(update((i * 13) % 97, i % 5, if i % 2 == 0 { 1 } else { -1 }));
    }
    let collection = Collection::new(updates);
    let named = collection.consolidate_named("Other");
    assert_eq!(named.updates(), collection.consolidate().updates());
    for pair in named.updates().windows(2) {
        assert!((pair[0].data, pair[0].time) < (pair[1].data, pair[1].time));
    }
    for u in named.updates() {
        assert_ne!(u.diff, 0);
    }
}

#[test]
fn consolidate_of_nothing_is_nothing() {
    assert!(Collection::new(Vec::new()).consolidate().updates().is_empty());
    assert!(Collection::new(Vec::new()).consolidate_stream().updates().is_empty());
}

#[test]
fn consolidate_stream_works_piece_by_piece() {
    let mut updates = Vec::new();
    for _ in 0..1024 {
        updates.push(update(1, 0, 1));
    }
    updates.push(update(1, 0, 1));
    updates.push(update(0, 0, 1));
    updates.push(update(1, 0, 1));
    let result = Collection::new(updates).consolidate_stream();
    assert_eq!(result.updates(), &vec![update(1, 0, 1024), update(0, 0, 1), update(1, 0, 2)]);
}

#[test]
fn consolidate_stream_keeps_the_meaning() {
    let mut updates = Vec::new();
    for i in 0..3000u64 {
        updates.push(update(i % 11, i % 2, (i % 5) as i64 - 2));
    }
    let collection = Collection::new(updates);
    let streamed = collection.consolidate_stream();
    assert_eq!(streamed.consolidate().updates(), collection.consolidate().updates());
}
