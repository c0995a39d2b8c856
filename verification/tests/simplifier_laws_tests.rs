//! The laws of the changes simplifier on chosen values.

use link_cli::{simplify_changes, Link};

fn l(index: u32, source: u32, target: u32) -> Link {
    Link::new(index, source, target)
}

#[test]
fn unchanged_transitions_come_back_as_they_are() {
    let changes = vec![(l(3, 3, 3), l(3, 3, 3)), (l(1, 2, 3), l(1, 2, 3)), (l(3, 3, 3), l(3, 3, 3))];
    assert_eq!(simplify_changes(changes.clone()), changes);
}

#[test]
fn null_to_null_alone_comes_back() {
    let changes = vec![(l(0, 0, 0), l(0, 0, 0))];
    assert_eq!(simplify_changes(changes.clone()), changes);
}

#[test]
fn chain_in_order_collapses_to_one_pair() {
    let changes = vec![
        (l(1, 0, 0), l(1, 1, 0)),
        (l(1, 1, 0), l(1, 1, 1)),
        (l(1, 1, 1), l(1, 2, 1)),
        (l(1, 2, 1), l(1, 2, 2)),
    ];
    assert_eq!(simplify_changes(changes), vec![(l(1, 0, 0), l(1, 2, 2))]);
}

#[test]
fn chain_out_of_order_collapses_to_one_pair() {
    let changes = vec![
        (l(1, 2, 1), l(1, 2, 2)),
        (l(1, 0, 0), l(1, 1, 0)),
        (l(1, 1, 1), l(1, 2, 1)),
        (l(1, 1, 0), l(1, 1, 1)),
    ];
    assert_eq!(simplify_changes(changes), vec![(l(1, 0, 0), l(1, 2, 2))]);
}

#[test]
fn fan_out_keeps_one_pair_for_each_final_state() {
    let start = l(7, 0, 0);
    let changes = vec![
        (start, l(7, 1, 0)),
        (l(7, 1, 0), l(7, 1, 1)),
        (start, l(7, 2, 0)),
        (l(7, 2, 0), l(7, 2, 2)),
        (start, l(7, 3, 3)),
    ];
    assert_eq!(
        simplify_changes(changes),
        vec![(start, l(7, 1, 1)), (start, l(7, 2, 2)), (start, l(7, 3, 3))]
    );
}

#[test]
fn branches_that_meet_again_give_one_pair() {
    let changes = vec![
        (l(1, 1, 1), l(2, 2, 2)),
        (l(1, 1, 1), l(3, 3, 3)),
        (l(2, 2, 2), l(4, 4, 4)),
        (l(3, 3, 3), l(4, 4, 4)),
    ];
    assert_eq!(simplify_changes(changes), vec![(l(1, 1, 1), l(4, 4, 4))]);
}

#[test]
fn simplifying_twice_changes_nothing_more() {
    let changes = vec![
        (l(9, 9, 9), l(9, 9, 9)),
        (l(1, 1, 2), l(0, 0, 0)),
        (l(0, 0, 0), l(1, 2, 1)),
        (l(2, 2, 1), l(2, 1, 2)),
    ];
    let once = simplify_changes(changes);
    assert_eq!(
        once,
        vec![(l(9, 9, 9), l(9, 9, 9)), (l(1, 1, 2), l(1, 2, 1)), (l(2, 2, 1), l(2, 1, 2))]
    );
    assert_eq!(simplify_changes(once.clone()), once);
}

#[test]
fn a_superseded_deletion_in_a_simplified_list_is_dropped() {
    // The first simplification keeps both branches that start at (1 1 1); the
    // second finds a deletion beside a change from the same state.
    let changes = vec![
        (l(1, 1, 1), l(2, 2, 2)),
        (l(2, 2, 2), l(0, 0, 0)),
        (l(1, 1, 1), l(3, 3, 3)),
    ];
    let once = simplify_changes(changes);
    assert_eq!(once, vec![(l(1, 1, 1), l(0, 0, 0)), (l(1, 1, 1), l(3, 3, 3))]);
    assert_eq!(simplify_changes(once), vec![(l(1, 1, 1), l(3, 3, 3))]);
}

#[test]
fn transitions_simplify_to_initial_and_final_states() {
    let changes = vec![
        (l(1, 1, 2), l(0, 0, 0)),
        (l(0, 0, 0), l(1, 2, 1)),
        (l(2, 2, 1), l(2, 1, 2)),
    ];
    assert_eq!(
        simplify_changes(changes),
        vec![(l(1, 1, 2), l(1, 2, 1)), (l(2, 2, 1), l(2, 1, 2))]
    );
}

#[test]
fn a_cycle_without_initial_state_comes_back_as_it_is() {
    let changes = vec![(l(1, 1, 1), l(2, 2, 2)), (l(2, 2, 2), l(1, 1, 1))];
    assert_eq!(simplify_changes(changes.clone()), changes);
}

#[test]
fn a_walk_into_a_cycle_ends_without_pairs() {
    let changes = vec![
        (l(5, 5, 5), l(5, 5, 5)),
        (l(1, 1, 1), l(2, 2, 2)),
        (l(2, 2, 2), l(3, 3, 3)),
        (l(3, 3, 3), l(2, 2, 2)),
    ];
    assert_eq!(simplify_changes(changes), vec![(l(5, 5, 5), l(5, 5, 5))]);
}

#[test]
fn unchanged_transitions_come_first_in_their_order() {
    let changes = vec![
        (l(9, 9, 9), l(9, 9, 9)),
        (l(4, 0, 0), l(4, 1, 1)),
        (l(8, 8, 8), l(8, 8, 8)),
        (l(2, 0, 0), l(2, 1, 1)),
    ];
    assert_eq!(
        simplify_changes(changes),
        vec![
            (l(9, 9, 9), l(9, 9, 9)),
            (l(8, 8, 8), l(8, 8, 8)),
            (l(2, 0, 0), l(2, 1, 1)),
            (l(4, 0, 0), l(4, 1, 1)),
        ]
    );
}

#[test]
fn pairs_with_the_same_final_state_come_in_order_of_their_initial_state() {
    let changes = vec![
        (l(2, 1, 2), l(2, 0, 0)),
        (l(1, 2, 1), l(1, 0, 0)),
        (l(2, 0, 0), l(0, 0, 0)),
        (l(1, 0, 0), l(0, 0, 0)),
    ];
    assert_eq!(
        simplify_changes(changes),
        vec![(l(1, 2, 1), l(0, 0, 0)), (l(2, 1, 2), l(0, 0, 0))]
    );
}

#[test]
fn deletions_alone_are_all_kept() {
    let changes = vec![(l(1, 1, 2), l(0, 0, 0)), (l(1, 1, 2), l(0, 0, 0)), (l(2, 2, 2), l(0, 0, 0))];
    assert_eq!(
        simplify_changes(changes),
        vec![(l(1, 1, 2), l(0, 0, 0)), (l(2, 2, 2), l(0, 0, 0))]
    );
}

#[test]
fn pairs_are_sorted_by_index_then_source_then_target() {
    let changes = vec![
        (l(1, 0, 0), l(2, 1, 1)),
        (l(1, 0, 0), l(1, 9, 9)),
        (l(1, 0, 0), l(2, 0, 9)),
        (l(1, 0, 0), l(2, 0, 1)),
    ];
    assert_eq!(
        simplify_changes(changes),
        vec![
            (l(1, 0, 0), l(1, 9, 9)),
            (l(1, 0, 0), l(2, 0, 1)),
            (l(1, 0, 0), l(2, 0, 9)),
            (l(1, 0, 0), l(2, 1, 1)),
        ]
    );
}
