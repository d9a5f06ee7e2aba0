use n_puzzle::astar::astar;
use n_puzzle::heuristic::Heuristic;
use n_puzzle::node::{Goal, Node};

#[test]
fn nth_move_picks_among_the_neighbours() {
    let node = Node { state: vec![1, 2, 3, 0, 4, 5, 6, 7, 8], len: 3, score: 3 };
    assert_eq!(node.nth_move(0).state, vec![0, 2, 3, 1, 4, 5, 6, 7, 8]);
    assert_eq!(node.nth_move(1).state, vec![1, 2, 3, 4, 0, 5, 6, 7, 8]);
    assert_eq!(node.nth_move(2).state, vec![1, 2, 3, 6, 4, 5, 0, 7, 8]);
    assert_eq!(node.nth_move(3).state, vec![0, 2, 3, 1, 4, 5, 6, 7, 8]);
    assert_eq!(node.nth_move(7).state, vec![1, 2, 3, 4, 0, 5, 6, 7, 8]);
    assert_eq!(node.nth_move(1).score, 0);
    assert_eq!(node.nth_move(1).len, 3);
}

#[test]
fn random_boards_are_solvable_boards() {
    for size in 0..5usize {
        for _ in 0..10 {
            let node = Node::random_node(size);
            assert_eq!(node.len, size);
            assert_eq!(node.score, 0);
            assert!(node.is_valid());
            assert!(node.is_solvable());
        }
    }
}

#[test]
fn random_boards_differ() {
    let first = Node::random_node(4);
    let mut other = false;
    for _ in 0..20 {
        if Node::random_node(4) != first {
            other = true;
        }
    }
    assert!(other);
}

#[test]
fn random_board_of_side_two_is_solved() {
    let goal = Goal::new(2);
    let mut start = Node::random_node(2);
    let given = start.state.clone();
    let res = astar(&mut start, &goal, &Heuristic::Manhattan, "uniform").unwrap();
    assert_eq!(res.path[0].state, given);
    assert_eq!(res.path[res.path.len() - 1].state, goal.node.state);
}
