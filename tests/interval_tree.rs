use voxel_store::interval_tree::{ContiguousIntervalTree, IntervalNode};

fn node(cell_i_start: usize, value: usize) -> IntervalNode<usize> {
    IntervalNode {
        cell_i_start,
        value,
    }
}

fn sample() -> ContiguousIntervalTree<usize> {
    ContiguousIntervalTree::new(vec![node(0, 0), node(3, 1), node(4, 2)], 16).unwrap()
}

fn starts_and_values(t: &ContiguousIntervalTree<usize>) -> Vec<(usize, usize)> {
    t.intervals()
        .iter()
        .map(|n| (n.cell_i_start, n.value))
        .collect()
}

fn check_rep(t: &ContiguousIntervalTree<usize>) {
    let runs = t.intervals();
    assert!(!runs.is_empty());
    assert_eq!(runs[0].cell_i_start, 0);
    for w in runs.windows(2) {
        assert!(w[0].cell_i_start < w[1].cell_i_start);
        assert_ne!(w[0].value, w[1].value);
    }
    assert!(runs[runs.len() - 1].cell_i_start < t.capacity());
}

fn all_cells(t: &ContiguousIntervalTree<usize>) -> Vec<usize> {
    let mut it = t.cell_wise_iter();
    let mut out = vec![];
    while let Some(v) = it.next() {
        out.push(*v);
    }
    out
}

#[test]
fn test_get() {
    let it = ContiguousIntervalTree::new(
        Vec::from_iter([
            IntervalNode {
                cell_i_start: 0,
                value: 0,
            },
            IntervalNode {
                cell_i_start: 3,
                value: 1,
            },
            IntervalNode {
                cell_i_start: 4,
                value: 2,
            },
        ]),
        16,
    )
    .unwrap();
    assert_eq!(*it.get(0), 0);
    assert_eq!(*it.get(1), 0);
    assert_eq!(*it.get(2), 0);
    assert_eq!(*it.get(3), 1);
    assert_eq!(*it.get(4), 2);
    assert_eq!(*it.get(5), 2);
    assert_eq!(*it.get(15), 2);

    let cells = all_cells(&it);
    assert_eq!(cells, [0, 0, 0, 1, 2, 2, 2, 2, 2, 2, 2, 2, 2, 2, 2, 2]);
}

#[test]
fn test_set() {
    let mut it = ContiguousIntervalTree::new(
        Vec::from_iter([
            IntervalNode {
                cell_i_start: 0,
                value: 0,
            },
            IntervalNode {
                cell_i_start: 3,
                value: 1,
            },
            IntervalNode {
                cell_i_start: 4,
                value: 2,
            },
        ]),
        16,
    )
    .unwrap();
    it.set(0, 3);
    check_rep(&it);
    assert_eq!(*it.get(0), 3);
    assert_eq!(*it.get(1), 0);
    assert_eq!(*it.get(2), 0);
    it.set(2, 4);
    check_rep(&it);
    assert_eq!(*it.get(1), 0);
    assert_eq!(*it.get(2), 4);
    assert_eq!(*it.get(3), 1);
    it.set(5, 5);
    check_rep(&it);
    assert_eq!(*it.get(4), 2);
    assert_eq!(*it.get(5), 5);
    assert_eq!(*it.get(6), 2);
}

#[test]
fn test_splice() {
    let mut vec = vec![1, 2, 3];
    vec.splice(1..1, [4, 5]);
    assert_eq!(vec, [1, 4, 5, 2, 3]);
}

#[test]
fn set_first_cell_prepends_single_run() {
    let mut t = sample();
    t.set(0, 3);
    assert_eq!(starts_and_values(&t), vec![(0, 3), (1, 0), (3, 1), (4, 2)]);
}

#[test]
fn set_same_value_changes_nothing() {
    let mut t = sample();
    for i in 0..16 {
        let v = *t.get(i);
        t.set(i, v);
        assert_eq!(starts_and_values(&t), vec![(0, 0), (3, 1), (4, 2)]);
    }
}

#[test]
fn set_single_cell_run_to_previous_value_merges() {
    let mut t = sample();
    t.set(3, 0);
    assert_eq!(starts_and_values(&t), vec![(0, 0), (4, 2)]);
    check_rep(&t);
}

#[test]
fn set_single_cell_run_to_next_value_merges() {
    let mut t = sample();
    t.set(3, 2);
    assert_eq!(starts_and_values(&t), vec![(0, 0), (3, 2)]);
    check_rep(&t);
}

#[test]
fn set_single_cell_between_equal_runs_joins_all_three() {
    let mut t = ContiguousIntervalTree::new(vec![node(0, 7), node(5, 1), node(6, 7)], 10).unwrap();
    t.set(5, 7);
    assert_eq!(starts_and_values(&t), vec![(0, 7)]);
    assert_eq!(all_cells(&t), vec![7; 10]);
}

#[test]
fn set_single_cell_run_to_fresh_value_rewrites() {
    let mut t = sample();
    t.set(3, 9);
    assert_eq!(starts_and_values(&t), vec![(0, 0), (3, 9), (4, 2)]);
}

#[test]
fn set_last_cell_to_next_value_grows_next_run() {
    let mut t = sample();
    t.set(2, 1);
    assert_eq!(starts_and_values(&t), vec![(0, 0), (2, 1), (4, 2)]);
    check_rep(&t);
}

#[test]
fn set_first_cell_to_previous_value_shrinks_run() {
    let mut t = sample();
    t.set(4, 1);
    assert_eq!(starts_and_values(&t), vec![(0, 0), (3, 1), (5, 2)]);
    assert_eq!(t.run_count(), 3);
}

#[test]
fn set_last_cell_to_fresh_value_appends_run() {
    let mut t = sample();
    t.set(15, 8);
    assert_eq!(starts_and_values(&t), vec![(0, 0), (3, 1), (4, 2), (15, 8)]);
}

#[test]
fn set_interior_cell_splits_in_three() {
    let mut t = sample();
    t.set(1, 6);
    assert_eq!(starts_and_values(&t), vec![(0, 0), (1, 6), (2, 0), (3, 1), (4, 2)]);
    assert_eq!(t.run_count(), 5);
}

#[test]
fn writes_last_one_wins() {
    let mut t = sample();
    let mut model = all_cells(&t);
    let writes = [(5, 1), (6, 1), (5, 3), (0, 2), (15, 2), (14, 0), (3, 2), (5, 2), (0, 0)];
    for (i, v) in writes {
        t.set(i, v);
        model[i] = v;
        check_rep(&t);
    }
    for i in 0..16 {
        assert_eq!(*t.get(i), model[i]);
    }
    assert_eq!(all_cells(&t), model);
}

#[test]
fn cell_wise_iter_nth_matches_get() {
    let t = sample();
    for i in 0..16 {
        let mut it = t.cell_wise_iter();
        assert_eq!(it.nth(i).copied(), Some(*t.get(i)));
    }
    let mut it = t.cell_wise_iter();
    assert_eq!(it.nth(16), None);
}

#[test]
fn cell_wise_iter_from_starts_mid_run() {
    let t = sample();
    let mut it = t.cell_wise_iter_from(2);
    assert_eq!(it.position(), 2);
    assert_eq!(it.next().copied(), Some(0));
    assert_eq!(it.next().copied(), Some(1));
    assert_eq!(it.next().copied(), Some(2));
    assert_eq!(it.position(), 5);
}

#[test]
fn new_rejects_malformed_run_lists() {
    assert!(ContiguousIntervalTree::<usize>::new(vec![], 4).is_none());
    assert!(ContiguousIntervalTree::new(vec![node(1, 0)], 4).is_none());
    assert!(ContiguousIntervalTree::new(vec![node(0, 0), node(2, 1), node(2, 3)], 4).is_none());
    assert!(ContiguousIntervalTree::new(vec![node(0, 0), node(3, 1), node(1, 3)], 4).is_none());
    assert!(ContiguousIntervalTree::new(vec![node(0, 0), node(4, 1)], 4).is_none());
    assert!(ContiguousIntervalTree::new(vec![node(0, 0), node(2, 0)], 4).is_none());
    assert!(ContiguousIntervalTree::new(vec![node(0, 0)], 0).is_none());
    assert!(ContiguousIntervalTree::new(vec![node(0, 0), node(3, 1)], 4).is_some());
}
