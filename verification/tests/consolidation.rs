use fueled_spine::consolidation::absorb;
use fueled_spine::merging::consolidate_updates;
use fueled_spine::merging::merge_runs;
use fueled_spine::merging::MergeProgress;
use fueled_spine::update::Update;

fn update(data: u64, time: u64, diff: i64) -> Update {
    Update { data, time, diff }
}

#[test]
fn absorb_appends_a_later_update() {
    let mut out = vec![update(1, 0, 1)];
    absorb(&mut out, update(1, 1, 2));
    assert_eq!(out, vec![update(1, 0, 1), update(1, 1, 2)]);
}

#[test]
fn absorb_adds_to_the_last_update() {
    let mut out = vec![update(1, 0, 1), update(2, 3, 4)];
    absorb(&mut out, update(2, 3, 5));
    assert_eq!(out, vec![update(1, 0, 1), update(2, 3, 9)]);
}

#[test]
fn absorb_removes_a_sum_of_zero() {
    let mut out = vec![update(1, 0, 1), update(2, 3, 4)];
    absorb(&mut out, update(2, 3, -4));
    assert_eq!(out, vec![update(1, 0, 1)]);
}

#[test]
fn absorb_leaves_out_a_zero_difference() {
    let mut out: Vec<Update> = Vec::new();
    absorb(&mut out, update(2, 3, 0));
    assert!(out.is_empty());
}

#[test]
fn merge_runs_interleaves_and_adds_up() {
    let a = vec![update(1, 0, 1), update(3, 0, 1), update(5, 0, 1)];
    let b = vec![update(2, 0, 1), update(3, 0, 2), update(5, 0, -1)];
    let out = merge_runs(&a, &b, &[]);
    assert_eq!(out, vec![update(1, 0, 1), update(2, 0, 1), update(3, 0, 3)]);
}

#[test]
fn merge_runs_advances_times() {
    let a = vec![update(7, 0, 1), update(7, 1, 1)];
    let b = vec![update(7, 2, 1), update(7, 4, 1)];
    let out = merge_runs(&a, &b, &[2]);
    assert_eq!(out, vec![update(7, 2, 3), update(7, 4, 1)]);
}

#[test]
fn merge_runs_with_an_empty_run() {
    let a = vec![update(1, 0, 1)];
    let out = merge_runs(&a, &Vec::new(), &[]);
    assert_eq!(out, a);
    let out = merge_runs(&Vec::new(), &a, &[]);
    assert_eq!(out, a);
}

#[test]
fn merge_progress_reads_one_update_per_step() {
    let a = vec![update(1, 0, 1), update(2, 0, 1)];
    let b = vec![update(1, 0, 1)];
    let mut progress = MergeProgress::new();
    assert!(!progress.is_complete(&a, &b));
    progress.step(&a, &b, &[]);
    assert_eq!(progress.pos1 + progress.pos2, 1);
    progress.step(&a, &b, &[]);
    progress.step(&a, &b, &[]);
    assert!(progress.is_complete(&a, &b));
    assert_eq!(progress.out, vec![update(1, 0, 2), update(2, 0, 1)]);
}

#[test]
fn consolidate_updates_sorts_and_adds_up() {
    let updates = vec![update(3, 1, 1), update(1, 2, 1), update(3, 1, 1), update(1, 1, 5), update(2, 0, 7), update(2, 0, -7)];
    let out = consolidate_updates(&updates);
    assert_eq!(out, vec![update(1, 1, 5), update(1, 2, 1), update(3, 1, 2)]);
}

#[test]
fn consolidate_updates_of_nothing_is_nothing() {
    assert!(consolidate_updates(&Vec::new()).is_empty());
    assert!(consolidate_updates(&vec![update(1, 1, 0)]).is_empty());
}

#[test]
fn consolidate_updates_does_not_depend_on_the_order() {
    let mut updates = Vec::new();
    for i in 0..200u64 {
        updates.push(update(i % 7, i % 3, (i as i64) - 100));
    }
    let forward = consolidate_updates(&updates);
    updates.reverse();
    let backward = consolidate_updates(&updates);
    assert_eq!(forward, backward);
    for pair in forward.windows(2) {
        assert!((pair[0].data, pair[0].time) < (pair[1].data, pair[1].time));
    }
    for u in &forward {
        assert_ne!(u.diff, 0);
    }
}
