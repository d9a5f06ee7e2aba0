use n_puzzle::node::{Goal, Node};

fn board(state: Vec<usize>, len: usize) -> Node {
    Node { state, len, score: 0 }
}

#[test]
fn text_of_a_board_of_side_three() {
    let node = board(vec![1, 2, 3, 8, 0, 4, 7, 6, 5], 3);
    assert_eq!(node.to_text(), "1 2 3\n8 0 4\n7 6 5\n");
}

#[test]
fn text_pads_to_the_widest_label() {
    let goal = Goal::new(4);
    assert_eq!(
        goal.to_text(),
        " 1  2  3  4\n12 13 14  5\n11  0 15  6\n10  9  8  7\n"
    );
}

#[test]
fn text_width_comes_from_the_largest_label() {
    let labels: Vec<usize> = (0..16).collect();
    assert_eq!(
        board(labels, 4).to_text(),
        " 0  1  2  3\n 4  5  6  7\n 8  9 10 11\n12 13 14 15\n"
    );
    let ten = n_puzzle::node::Goal::new(10).to_text();
    assert!(ten.starts_with(" 1  2  3  4  5  6  7  8  9 10\n36 37"));
    let eleven = n_puzzle::node::Goal::new(11).to_text();
    assert!(eleven.starts_with("  1   2   3"));
}

#[test]
fn text_of_degenerate_boards() {
    assert_eq!(board(vec![], 0).to_text(), "");
    assert_eq!(board(vec![0], 1).to_text(), "0\n");
}

#[test]
fn text_keeps_a_label_wider_than_the_column() {
    assert_eq!(board(vec![100, 2, 0, 3], 2).to_text(), "100 2\n0 3\n");
}

#[test]
fn boards_are_equal_by_their_labels() {
    let a = Node { state: vec![1, 2, 0, 3], len: 2, score: 1 };
    let b = Node { state: vec![1, 2, 0, 3], len: 2, score: 9 };
    let c = Node { state: vec![1, 0, 2, 3], len: 2, score: 1 };
    assert!(a == b);
    assert!(a != c);
    assert_eq!(Goal::new(2).node, a);
}

#[test]
fn goal_clone_keeps_board_and_index() {
    let goal = Goal::new(3);
    let copy = goal.clone();
    assert_eq!(copy.node.state, goal.node.state);
    assert_eq!(copy.node.len, 3);
    assert_eq!(copy.map, goal.map);
}
