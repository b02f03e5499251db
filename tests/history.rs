use buddy_up::merge;
use buddy_up::History;
use buddy_up::HistoryStats;

#[test]
fn history_test_max_iteration_empty_history() {
    let h = History::new();
    assert_eq!(h.max_iteration(), 0);
}

#[test]
fn history_test_max_iteration() {
    let mut h = History::new();
    h.insert((1, 2), 4);
    assert_eq!(h.max_iteration(), 4);
}

#[test]
fn history_test_merge() {
    let mut h = History::new();
    let pairs = vec![(1, 2)];
    merge(&mut h, &pairs);
    assert_eq!(h.max_iteration(), 1);
    assert_eq!(h.len(), 1);

    // merging the same run again raises the score by one
    merge(&mut h, &pairs);
    assert_eq!(h.max_iteration(), 2);
    assert_eq!(h.len(), 1);
}

#[test]
fn history_test_merge_same() {
    let mut h = History::new();

    let pairs = vec![(1, 2)];
    let pairs2 = vec![(2, 1)];
    merge(&mut h, &pairs);
    assert_eq!(h.max_iteration(), 1);
    assert_eq!(h.len(), 1);
    merge(&mut h, &pairs2);
    assert_eq!(h.max_iteration(), 2);
    assert_eq!(h.len(), 1);
}

#[test]
fn history_test_contains_either_order() {
    let mut h = History::new();
    let pairs = vec![(1, 2)];
    merge(&mut h, &pairs);
    assert_eq!(h.max_iteration(), 1);
    assert_eq!(h.len(), 1);

    let pair1 = h.contains(&(1, 2));
    let pair2 = h.contains(&(2, 1));
    assert!(pair1);
    assert!(pair2);
    assert_eq!(h.len(), 1);
}

#[test]
fn history_test_insert_same_pair() {
    let mut h = History::new();
    let pair1 = (1, 2);
    let pair2 = (2, 1);
    h.insert(pair1, 1);
    assert_eq!(h.len(), 1);
    h.insert(pair2, 2);
    assert_eq!(h.len(), 1);
}

#[test]
fn history_test_get_either_order() {
    let mut h = History::new();
    let pairs = vec![(1, 2)];
    merge(&mut h, &pairs);
    assert_eq!(h.max_iteration(), 1);
    assert_eq!(h.len(), 1);

    let pair1 = h.get((1, 2));
    let pair2 = h.get((2, 1));
    assert_eq!(pair1, Some(1));
    assert_eq!(pair2, Some(1));
    assert_eq!(h.len(), 1);
}

#[test]
fn score_is_the_same_in_either_order() {
    let mut h = History::new();
    merge(&mut h, &vec![(3, 7), (7, 3), (1, 9)]);
    for (a, b) in [(3, 7), (1, 9), (4, 5), (2, 2)] {
        assert_eq!(h.get((a, b)), h.get((b, a)));
        assert_eq!(h.contains(&(a, b)), h.contains(&(b, a)));
    }
    assert_eq!(h.get((7, 3)), Some(2));
    assert_eq!(h.get((4, 5)), None);
}

#[test]
fn merging_one_observation_twice_scores_two() {
    let mut h = History::new();
    merge(&mut h, &vec![(5, 6)]);
    merge(&mut h, &vec![(5, 6)]);
    assert_eq!(h.get((5, 6)), Some(2));
    assert_eq!(h.len(), 1);
}

#[test]
fn merge_in_reverse_order_adds_no_entry() {
    let mut h = History::new();
    merge(&mut h, &vec![(1, 2)]);
    merge(&mut h, &vec![(2, 1)]);
    assert_eq!(h.len(), 1);
    assert_eq!(h.get((1, 2)), Some(2));
    assert_eq!(h.get((2, 1)), Some(2));
}

#[test]
fn empty_history_min_and_max_are_zero() {
    let h = History::new();
    assert_eq!(h.min(), 0);
    assert_eq!(h.max(), 0);
    assert!(h.is_empty());
    let d = History::default();
    assert_eq!(d.min(), 0);
    assert_eq!(d.max(), 0);
}

#[test]
fn min_and_max_over_scores() {
    let mut h = History::new();
    merge(&mut h, &vec![(1, 2), (3, 4), (2, 1), (5, 6), (1, 2)]);
    assert_eq!(h.len(), 3);
    assert_eq!(h.min(), 1);
    assert_eq!(h.max(), 3);
    assert!(!h.is_empty());
}

#[test]
fn insert_replaces_the_score() {
    let mut h = History::new();
    h.insert((8, 3), 5);
    h.insert((3, 8), 2);
    assert_eq!(h.get((8, 3)), Some(2));
    assert_eq!(h.len(), 1);
}

#[test]
fn build_from_merges_records_in_order() {
    let records = vec![vec![(1, 2), (3, 4)], vec![(2, 1), (4, 5)], vec![]];
    let h = History::build_from(&records);
    assert_eq!(h.len(), 3);
    assert_eq!(h.get((1, 2)), Some(2));
    assert_eq!(h.get((4, 3)), Some(1));
    assert_eq!(h.get((5, 4)), Some(1));
    assert_eq!(h.stats(), HistoryStats { files_read: 3, pairs: 3 });
}

#[test]
fn build_from_nothing_is_empty() {
    let h = History::build_from(&vec![]);
    assert!(h.is_empty());
    assert_eq!(h.stats(), HistoryStats { files_read: 0, pairs: 0 });
}
