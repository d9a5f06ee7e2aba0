use n_puzzle::astar::{
    astar, enter, find_known, pop_lowest, priority, reconstruct_path, state_key, str_to_search,
    Entry, Search,
};
use std::collections::HashMap;
use n_puzzle::heuristic::Heuristic;
use n_puzzle::node::{Goal, Node};

fn board(state: Vec<usize>, len: usize) -> Node {
    Node { state, len, score: 0 }
}

fn entry(state: Vec<usize>, len: usize, score: i32, parent: usize, cost: usize) -> Entry {
    Entry { node: Node { state, len, score }, parent, cost }
}

fn is_move(from: &Node, to: &Node) -> bool {
    from.get_neighbour().iter().any(|n| n.state == to.state)
}

#[test]
fn start_at_goal_side_two() {
    for mode in ["greedy", "uniform"] {
        for h in [Heuristic::Manhattan, Heuristic::Linear, Heuristic::Xy] {
            let goal = Goal::new(2);
            let mut start = goal.node.clone();
            let res = astar(&mut start, &goal, &h, mode).unwrap();
            assert_eq!(res.path.len(), 1);
            assert_eq!(res.path[0].state, goal.node.state);
            assert_eq!(res.total_states, 0);
            assert_eq!(res.max_states, 0);
        }
    }
}

#[test]
fn one_move_from_goal_side_three() {
    let goal = Goal::new(3);
    let mut start = board(vec![1, 2, 3, 8, 4, 0, 7, 6, 5], 3);
    let res = astar(&mut start, &goal, &Heuristic::Manhattan, "uniform").unwrap();
    assert_eq!(res.path.len(), 2);
    assert_eq!(res.path[0].state, vec![1, 2, 3, 8, 4, 0, 7, 6, 5]);
    assert_eq!(res.path[1].state, goal.node.state);
    assert!(res.total_states <= 4);
    assert_eq!(res.total_states, 3);
    assert_eq!(res.max_states, 3);
    assert_eq!(res.path[0].score, 1);
    assert_eq!(res.path[1].score, 1);
}

#[test]
fn start_gets_its_estimate_as_priority() {
    let goal = Goal::new(3);
    let mut start = board(vec![2, 1, 3, 8, 0, 4, 7, 6, 5], 3);
    start.state = vec![1, 2, 3, 0, 8, 4, 7, 6, 5];
    start.score = 99;
    let res = astar(&mut start, &goal, &Heuristic::Manhattan, "greedy");
    assert!(res.is_some());
    assert_eq!(start.score, 1);
    assert_eq!(start.state, vec![1, 2, 3, 0, 8, 4, 7, 6, 5]);
}

#[test]
fn uniform_path_length_is_the_cost() {
    let goal = Goal::new(3);
    let given = vec![2, 3, 4, 1, 8, 0, 7, 6, 5];
    let mut start = board(given.clone(), 3);
    assert!(start.is_solvable());
    let res = astar(&mut start, &goal, &Heuristic::Manhattan, "uniform").unwrap();
    assert_eq!(res.path[0].state, given);
    assert_eq!(res.path[res.path.len() - 1].state, goal.node.state);
    for j in 0..res.path.len() {
        let h = Heuristic::Manhattan.get_score(&res.path[j], &goal);
        assert_eq!(res.path[j].score, j as i32 + h);
        if j > 0 {
            assert!(is_move(&res.path[j - 1], &res.path[j]));
        }
    }
    assert!(res.path.len() - 1 <= res.total_states);
    assert!(res.max_states <= res.total_states);
    assert_eq!(res.path.len(), 6);
}

#[test]
fn greedy_path_leads_to_the_goal() {
    for h in [Heuristic::Manhattan, Heuristic::Linear, Heuristic::Xy] {
        let goal = Goal::new(3);
        let given = vec![8, 1, 3, 7, 2, 4, 0, 6, 5];
        let mut start = board(given.clone(), 3);
        assert!(start.is_solvable());
        let res = astar(&mut start, &goal, &h, "greedy").unwrap();
        assert_eq!(res.path[0].state, given);
        assert_eq!(res.path[res.path.len() - 1].state, goal.node.state);
        for j in 0..res.path.len() {
            assert_eq!(res.path[j].score, h.get_score(&res.path[j], &goal));
            if j > 0 {
                assert!(is_move(&res.path[j - 1], &res.path[j]));
            }
        }
    }
}

#[test]
fn unsolvable_board_gives_nothing() {
    let goal = Goal::new(2);
    let mut start = board(vec![2, 1, 0, 3], 2);
    assert!(!start.is_solvable());
    assert!(astar(&mut start, &goal, &Heuristic::Manhattan, "uniform").is_none());
    assert!(astar(&mut start, &goal, &Heuristic::Linear, "greedy").is_none());
}

#[test]
fn every_solvable_board_of_side_two_is_solved() {
    let goal = Goal::new(2);
    let boards = [
        vec![1, 2, 0, 3],
        vec![1, 2, 3, 0],
        vec![1, 0, 3, 2],
        vec![0, 1, 3, 2],
        vec![3, 1, 0, 2],
        vec![0, 2, 1, 3],
    ];
    for state in boards {
        let mut start = board(state.clone(), 2);
        assert!(start.is_solvable());
        let res = astar(&mut start, &goal, &Heuristic::Manhattan, "uniform").unwrap();
        assert_eq!(res.path[0].state, state);
        assert_eq!(res.path[res.path.len() - 1].state, goal.node.state);
    }
}

#[test]
fn search_names() {
    assert_eq!(str_to_search("greedy"), Some(Search::Greedy));
    assert_eq!(str_to_search("uniform"), Some(Search::Uniform));
    assert_eq!(str_to_search("Greedy"), None);
    assert_eq!(str_to_search(""), None);
    assert_eq!(str_to_search("uniform "), None);
}

#[test]
fn priority_by_mode() {
    assert_eq!(priority(Search::Greedy, 7, 5), 5);
    assert_eq!(priority(Search::Uniform, 7, 5), 12);
    assert_eq!(priority(Search::Uniform, 0, 0), 0);
    assert_eq!(priority(Search::Uniform, usize::MAX, 5), i32::MAX);
    assert_eq!(priority(Search::Uniform, (i32::MAX - 5) as usize, 5), i32::MAX);
    assert_eq!(priority(Search::Uniform, (i32::MAX - 6) as usize, 5), i32::MAX - 1);
}

#[test]
fn find_known_looks_at_labels_only() {
    let mut seen = Vec::new();
    let mut index = HashMap::new();
    assert_eq!(find_known(&seen, &index, &board(vec![1, 2, 0, 3], 2)), None);
    enter(&mut seen, &mut index, entry(vec![1, 2, 0, 3], 2, 4, 0, 0));
    enter(&mut seen, &mut index, entry(vec![1, 0, 2, 3], 2, 2, 0, 1));
    assert_eq!(seen.len(), 2);
    assert_eq!(seen[1].node.state, vec![1, 0, 2, 3]);
    let other = Node { state: vec![1, 0, 2, 3], len: 2, score: 77 };
    assert_eq!(find_known(&seen, &index, &other), Some(1));
    assert_eq!(find_known(&seen, &index, &board(vec![1, 2, 0, 3], 2)), Some(0));
    assert_eq!(find_known(&seen, &index, &board(vec![0, 1, 2, 3], 2)), None);
}

#[test]
fn boards_with_one_key_are_told_apart() {
    let a = vec![0, 4294967291, 1];
    let b = vec![0, 0, 1];
    assert_eq!(state_key(&a), state_key(&b));
    let mut seen = Vec::new();
    let mut index = HashMap::new();
    enter(&mut seen, &mut index, entry(a.clone(), 0, 0, 0, 0));
    assert_eq!(find_known(&seen, &index, &board(b.clone(), 0)), None);
    enter(&mut seen, &mut index, entry(b.clone(), 0, 0, 0, 1));
    assert_eq!(find_known(&seen, &index, &board(b, 0)), Some(1));
    assert_eq!(find_known(&seen, &index, &board(a, 0)), Some(0));
}

#[test]
fn key_reads_the_labels_as_digits() {
    assert_eq!(state_key(&vec![]), 0);
    assert_eq!(state_key(&vec![7]), 7);
    assert_eq!(state_key(&vec![1, 2, 0, 3]), ((1 * 31 + 2) * 31 + 0) * 31 + 3);
    assert_eq!(state_key(&vec![4294967290, 4]), (4294967290u64 * 31 + 4) % 4294967291);
}

#[test]
fn a_hard_board_of_side_three_is_solved() {
    let goal = Goal::new(3);
    let given = vec![5, 6, 7, 4, 0, 8, 3, 2, 1];
    let mut start = board(given.clone(), 3);
    assert!(start.is_solvable());
    let res = astar(&mut start, &goal, &Heuristic::Linear, "uniform").unwrap();
    assert_eq!(res.path[0].state, given);
    assert_eq!(res.path[res.path.len() - 1].state, goal.node.state);
    for j in 1..res.path.len() {
        assert!(is_move(&res.path[j - 1], &res.path[j]));
    }
    assert!(res.path.len() - 1 <= res.total_states);
    assert!(res.max_states <= res.total_states);
}

#[test]
fn pop_lowest_takes_the_first_of_the_lowest() {
    let seen = vec![
        entry(vec![1, 2, 0, 3], 2, 4, 0, 0),
        entry(vec![1, 0, 2, 3], 2, 2, 0, 1),
        entry(vec![1, 2, 3, 0], 2, 2, 0, 1),
        entry(vec![0, 1, 2, 3], 2, 3, 1, 2),
    ];
    let mut frontier = vec![0, 3, 2, 1];
    assert_eq!(pop_lowest(&mut frontier, &seen), (2, 2));
    assert_eq!(frontier, vec![0, 3, 1]);
    assert_eq!(pop_lowest(&mut frontier, &seen), (1, 2));
    assert_eq!(pop_lowest(&mut frontier, &seen), (3, 1));
    assert_eq!(pop_lowest(&mut frontier, &seen), (0, 0));
    assert!(frontier.is_empty());
}

#[test]
fn reconstructed_path_has_one_board_per_move() {
    let seen = vec![
        entry(vec![1, 0, 3, 2], 2, 2, 0, 0),
        entry(vec![0, 1, 3, 2], 2, 4, 0, 1),
        entry(vec![1, 2, 3, 0], 2, 2, 0, 1),
        entry(vec![1, 2, 0, 3], 2, 2, 2, 2),
    ];
    let path = reconstruct_path(&seen, 3);
    assert_eq!(path.len(), seen[3].cost + 1);
    assert_eq!(path[0].state, vec![1, 0, 3, 2]);
    assert_eq!(path[1].state, vec![1, 2, 3, 0]);
    assert_eq!(path[2].state, vec![1, 2, 0, 3]);
    let alone = reconstruct_path(&seen, 0);
    assert_eq!(alone.len(), 1);
    assert_eq!(alone[0].state, vec![1, 0, 3, 2]);
}
