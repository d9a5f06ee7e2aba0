use n_puzzle::node::{Goal, Node};
use n_puzzle::spiral::spiral_order;
use std::collections::{HashSet, VecDeque};

fn board(state: Vec<usize>, len: usize) -> Node {
    Node { state, len, score: 0 }
}

fn states(nodes: &[Node]) -> Vec<Vec<usize>> {
    nodes.iter().map(|n| n.state.clone()).collect()
}

fn reachable_from_goal(len: usize) -> HashSet<Vec<usize>> {
    let goal = Goal::new(len);
    let mut met: HashSet<Vec<usize>> = HashSet::new();
    let mut queue: VecDeque<Node> = VecDeque::new();
    met.insert(goal.node.state.clone());
    queue.push_back(goal.node.clone());
    while let Some(current) = queue.pop_front() {
        for next in current.get_neighbour() {
            if met.insert(next.state.clone()) {
                queue.push_back(next);
            }
        }
    }
    met
}

fn permutations(items: &mut Vec<usize>, from: usize, out: &mut Vec<Vec<usize>>) {
    if from == items.len() {
        out.push(items.clone());
        return;
    }
    for i in from..items.len() {
        items.swap(from, i);
        permutations(items, from + 1, out);
        items.swap(from, i);
    }
}

#[test]
fn spiral_order_of_small_grids() {
    assert_eq!(spiral_order(0), Vec::<usize>::new());
    assert_eq!(spiral_order(1), vec![0]);
    assert_eq!(spiral_order(2), vec![0, 1, 3, 2]);
    assert_eq!(spiral_order(3), vec![0, 1, 2, 5, 8, 7, 6, 3, 4]);
    assert_eq!(
        spiral_order(4),
        vec![0, 1, 2, 3, 7, 11, 15, 14, 13, 12, 8, 4, 5, 6, 10, 9]
    );
}

#[test]
fn goal_of_side_three_is_the_spiral() {
    let goal = Goal::new(3);
    assert_eq!(goal.node.state, vec![1, 2, 3, 8, 0, 4, 7, 6, 5]);
    assert_eq!(goal.node.len, 3);
    assert_eq!(goal.node.score, 0);
    assert_eq!(goal.map.len(), 8);
    assert_eq!(goal.map.get(&1), Some(&(0, 0)));
    assert_eq!(goal.map.get(&4), Some(&(2, 1)));
    assert_eq!(goal.map.get(&7), Some(&(0, 2)));
    assert_eq!(goal.map.get(&8), Some(&(0, 1)));
    assert_eq!(goal.map.get(&0), None);
    assert_eq!(goal.map.get(&9), None);
}

#[test]
fn goal_of_side_two_and_four() {
    assert_eq!(Goal::new(2).node.state, vec![1, 2, 0, 3]);
    let four = Goal::new(4);
    assert_eq!(
        four.node.state,
        vec![1, 2, 3, 4, 12, 13, 14, 5, 11, 0, 15, 6, 10, 9, 8, 7]
    );
    assert_eq!(four.map.len(), 15);
    assert_eq!(four.map.get(&15), Some(&(2, 2)));
    assert_eq!(four.map.get(&13), Some(&(1, 1)));
}

#[test]
fn goal_of_degenerate_sides() {
    let none = Goal::new(0);
    assert!(none.node.state.is_empty());
    assert!(none.map.is_empty());
    let one = Goal::new(1);
    assert_eq!(one.node.state, vec![0]);
    assert!(one.map.is_empty());
}

#[test]
fn goal_holds_every_label_once() {
    for len in 1..8usize {
        let goal = Goal::new(len);
        assert!(goal.node.is_valid());
        let mut labels = goal.node.state.clone();
        labels.sort();
        assert_eq!(labels, (0..len * len).collect::<Vec<usize>>());
        assert_eq!(goal.map.len(), len * len - 1);
        for (i, label) in goal.node.state.iter().enumerate() {
            if *label != 0 {
                assert_eq!(goal.map.get(label), Some(&(i % len, i / len)));
            }
        }
    }
}

#[test]
fn neighbours_of_a_corner_blank() {
    let node = board(vec![0, 1, 2, 3, 4, 5, 6, 7, 8], 3);
    let next = node.get_neighbour();
    assert_eq!(
        states(&next),
        vec![vec![1, 0, 2, 3, 4, 5, 6, 7, 8], vec![3, 1, 2, 0, 4, 5, 6, 7, 8]]
    );
}

#[test]
fn neighbours_of_an_edge_blank() {
    let node = board(vec![1, 2, 3, 0, 4, 5, 6, 7, 8], 3);
    let next = node.get_neighbour();
    assert_eq!(
        states(&next),
        vec![
            vec![0, 2, 3, 1, 4, 5, 6, 7, 8],
            vec![1, 2, 3, 4, 0, 5, 6, 7, 8],
            vec![1, 2, 3, 6, 4, 5, 0, 7, 8],
        ]
    );
}

#[test]
fn neighbours_of_an_interior_blank() {
    let mut node = board(vec![1, 2, 3, 8, 0, 4, 7, 6, 5], 3);
    node.score = 17;
    let next = node.get_neighbour();
    assert_eq!(
        states(&next),
        vec![
            vec![1, 2, 3, 0, 8, 4, 7, 6, 5],
            vec![1, 0, 3, 8, 2, 4, 7, 6, 5],
            vec![1, 2, 3, 8, 4, 0, 7, 6, 5],
            vec![1, 2, 3, 8, 6, 4, 7, 0, 5],
        ]
    );
    for n in &next {
        assert_eq!(n.score, 0);
        assert_eq!(n.len, 3);
        assert!(n.is_valid());
    }
}

#[test]
fn neighbour_counts_on_every_position() {
    for len in 2..6usize {
        for x in 0..len * len {
            let mut state: Vec<usize> = (1..len * len).collect();
            state.insert(x, 0);
            let node = board(state, len);
            let col = x % len;
            let row = x / len;
            let mut expected = 2;
            if col > 0 && col < len - 1 {
                expected += 1;
            }
            if row > 0 && row < len - 1 {
                expected += 1;
            }
            assert_eq!(node.get_neighbour().len(), expected);
        }
    }
}

#[test]
fn neighbours_of_the_single_cell_board() {
    assert!(board(vec![0], 1).get_neighbour().is_empty());
}

#[test]
fn swap_exchanges_two_labels() {
    let mut node = board(vec![1, 2, 0, 3], 2);
    node.score = 5;
    let swapped = node.swap(0, 3);
    assert_eq!(swapped.state, vec![3, 2, 0, 1]);
    assert_eq!(swapped.len, 2);
    assert_eq!(swapped.score, 0);
    assert_eq!(node.state, vec![1, 2, 0, 3]);
}

#[test]
fn find_blank_gives_its_position() {
    assert_eq!(board(vec![1, 2, 0, 3], 2).find_blank(), Some(2));
    assert_eq!(board(vec![1, 2, 4, 3], 2).find_blank(), None);
}

#[test]
fn same_state_ignores_the_priority() {
    let a = Node { state: vec![1, 2, 0, 3], len: 2, score: 1 };
    let b = Node { state: vec![1, 2, 0, 3], len: 2, score: 9 };
    let c = Node { state: vec![1, 0, 2, 3], len: 2, score: 1 };
    assert!(a.same_state(&b));
    assert!(!a.same_state(&c));
    assert!(!a.same_state(&board(vec![0], 1)));
}

#[test]
fn clone_keeps_every_field() {
    let a = Node { state: vec![3, 1, 0, 2], len: 2, score: -4 };
    let b = a.clone();
    assert_eq!(b.state, vec![3, 1, 0, 2]);
    assert_eq!(b.len, 2);
    assert_eq!(b.score, -4);
}

#[test]
fn is_valid_accepts_boards_only() {
    assert!(board(vec![1, 2, 0, 3], 2).is_valid());
    assert!(board(vec![], 0).is_valid());
    assert!(!board(vec![1, 2, 4, 3], 2).is_valid());
    assert!(!board(vec![1, 1, 0, 3], 2).is_valid());
    assert!(!board(vec![1, 2, 0], 2).is_valid());
    assert!(!board(vec![0, 1, 2, 3], 3).is_valid());
}

#[test]
fn linear_follows_the_spiral() {
    let node = board(vec![1, 2, 3, 8, 4, 0, 7, 6, 5], 3);
    assert_eq!(node.get_linear(), vec![1, 2, 3, 0, 5, 6, 7, 8, 4]);
    assert_eq!(board(vec![], 0).get_linear(), Vec::<usize>::new());
    assert_eq!(board(vec![0], 1).get_linear(), vec![0]);
}

#[test]
fn solvable_by_parity_of_inversions() {
    assert!(board(vec![1, 2, 3, 8, 0, 4, 7, 6, 5], 3).is_solvable());
    assert!(board(vec![1, 2, 3, 8, 4, 0, 7, 6, 5], 3).is_solvable());
    assert!(!board(vec![2, 1, 3, 8, 0, 4, 7, 6, 5], 3).is_solvable());
    assert!(board(vec![1, 2, 0, 3], 2).is_solvable());
    assert!(!board(vec![2, 1, 0, 3], 2).is_solvable());
    assert!(board(vec![0], 1).is_solvable());
}

#[test]
fn solvable_matches_reachability_side_two() {
    let met = reachable_from_goal(2);
    assert_eq!(met.len(), 12);
    let mut all = Vec::new();
    permutations(&mut (0..4).collect(), 0, &mut all);
    assert_eq!(all.len(), 24);
    for state in all {
        let reached = met.contains(&state);
        assert_eq!(board(state, 2).is_solvable(), reached);
    }
}

#[test]
fn solvable_matches_reachability_side_three() {
    let met = reachable_from_goal(3);
    assert_eq!(met.len(), 181440);
    let mut all = Vec::new();
    permutations(&mut (0..9).collect(), 0, &mut all);
    assert_eq!(all.len(), 362880);
    for state in all {
        let reached = met.contains(&state);
        assert_eq!(board(state, 3).is_solvable(), reached);
    }
}
