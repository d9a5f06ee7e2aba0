use n_puzzle::heuristic::Heuristic;
use n_puzzle::node::{Goal, Node};

fn board(state: Vec<usize>, len: usize) -> Node {
    Node { state, len, score: 0 }
}

#[test]
fn names_resolve_whatever_their_case() {
    assert_eq!(Heuristic::str_to_heuristic("manhattan"), Some(Heuristic::Manhattan));
    assert_eq!(Heuristic::str_to_heuristic("MANHATTAN"), Some(Heuristic::Manhattan));
    assert_eq!(Heuristic::str_to_heuristic("Linear"), Some(Heuristic::Linear));
    assert_eq!(Heuristic::str_to_heuristic("xY"), Some(Heuristic::Xy));
}

#[test]
fn other_names_do_not_resolve() {
    assert_eq!(Heuristic::str_to_heuristic(""), None);
    assert_eq!(Heuristic::str_to_heuristic("manhatta"), None);
    assert_eq!(Heuristic::str_to_heuristic("manhattan "), None);
    assert_eq!(Heuristic::str_to_heuristic("euclid"), None);
    assert_eq!(Heuristic::str_to_heuristic("x\u{19}"), None);
    assert_eq!(Heuristic::str_to_heuristic("xy\u{e9}"), None);
}

#[test]
fn goal_scores_zero_against_itself() {
    for len in 0..6usize {
        let goal = Goal::new(len);
        assert_eq!(Heuristic::manhattan(&goal.node, &goal), 0);
        assert_eq!(Heuristic::linear(&goal.node, &goal), 0);
        assert_eq!(Heuristic::xy(&goal.node, &goal), 0);
        assert_eq!(Heuristic::Manhattan.get_score(&goal.node, &goal), 0);
        assert_eq!(Heuristic::Linear.get_score(&goal.node, &goal), 0);
        assert_eq!(Heuristic::Xy.get_score(&goal.node, &goal), 0);
    }
}

#[test]
fn manhattan_sums_the_distances() {
    let goal = Goal::new(3);
    assert_eq!(Heuristic::manhattan(&board(vec![1, 2, 3, 8, 4, 0, 7, 6, 5], 3), &goal), 1);
    assert_eq!(Heuristic::manhattan(&board(vec![0, 2, 3, 8, 1, 4, 7, 6, 5], 3), &goal), 2);
    assert_eq!(Heuristic::manhattan(&board(vec![5, 2, 3, 8, 0, 4, 7, 6, 1], 3), &goal), 8);
}

#[test]
fn manhattan_leaves_the_blank_out() {
    let goal = Goal::new(2);
    assert_eq!(Heuristic::manhattan(&board(vec![0, 2, 1, 3], 2), &goal), 1);
}

#[test]
fn linear_adds_two_for_each_conflict() {
    let goal = Goal::new(3);
    assert_eq!(Heuristic::linear(&board(vec![2, 1, 3, 8, 0, 4, 7, 6, 5], 3), &goal), 4);
    assert_eq!(Heuristic::linear(&board(vec![1, 2, 3, 8, 4, 0, 7, 6, 5], 3), &goal), 1);
    assert_eq!(Heuristic::linear(&board(vec![3, 2, 1, 8, 0, 4, 7, 6, 5], 3), &goal), 10);
    assert_eq!(Heuristic::linear(&board(vec![7, 2, 3, 8, 0, 4, 1, 6, 5], 3), &goal), 10);
    assert_eq!(Heuristic::linear(&board(vec![0, 2, 3, 8, 1, 4, 7, 6, 5], 3), &goal), 2);
}

#[test]
fn xy_counts_tiles_in_their_row_or_column() {
    let goal = Goal::new(3);
    assert_eq!(Heuristic::xy(&board(vec![2, 1, 3, 8, 0, 4, 7, 6, 5], 3), &goal), 2);
    assert_eq!(Heuristic::xy(&board(vec![8, 2, 3, 1, 0, 4, 7, 6, 5], 3), &goal), 2);
    assert_eq!(Heuristic::xy(&board(vec![0, 2, 3, 8, 1, 4, 7, 6, 5], 3), &goal), 0);
}

#[test]
fn get_score_dispatches() {
    let goal = Goal::new(3);
    let node = board(vec![2, 1, 3, 8, 0, 4, 7, 6, 5], 3);
    assert_eq!(Heuristic::Manhattan.get_score(&node, &goal), 2);
    assert_eq!(Heuristic::Linear.get_score(&node, &goal), 4);
    assert_eq!(Heuristic::Xy.get_score(&node, &goal), 2);
}
