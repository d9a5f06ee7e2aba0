//! Best-first search from a board to the goal.

use crate::heuristic::{scorable, Heuristic};
use crate::node::MAX_SIDE;
use crate::node::{
    adjacent, blank_pos, can_down, can_left, can_right, can_up, is_board, lemma_board_blank,
    lemma_moves_adjacent, lemma_swapped_board, moves, swapped, Goal, Node,
};
use std::collections::HashMap;
use vstd::prelude::*;
use vstd::string::StrSliceExecFns;

verus! {

broadcast use vstd::std_specs::hash::group_hash_axioms;

/// What a search that reached the goal found: the boards from the start to
/// the goal, the largest number of boards that waited to be expanded at one
/// time, and the number of boards admitted after the start.
pub struct Results {
    pub path: Vec<Node>,
    pub max_states: usize,
    pub total_states: usize,
}

/// How the priority of a board is taken: from the estimate alone, or from
/// the number of moves made so far plus the estimate.
#[derive(Clone, Copy, Debug, PartialEq, Eq, Structural)]
pub enum Search {
    Greedy,
    Uniform,
}

/// One board that the search has met: the board with its priority, the place
/// in the table of the board it was reached from (the start names itself),
/// and the number of moves made to reach it.
pub struct Entry {
    pub node: Node,
    pub parent: usize,
    pub cost: usize,
}

/// The search mode that `s` names, if it names one.
pub open spec fn mode_of(s: Seq<char>) -> Option<Search> {
    if s == "greedy"@ {
        Some(Search::Greedy)
    } else if s == "uniform"@ {
        Some(Search::Uniform)
    } else {
        None
    }
}

/// The priority of a board reached in `cost` moves whose estimate is `h`.
/// In uniform mode a sum beyond the priority's range counts as the largest
/// priority.
pub open spec fn priority_of(mode: Search, cost: int, h: int) -> int {
    match mode {
        Search::Greedy => h,
        Search::Uniform => if cost + h > i32::MAX {
            i32::MAX as int
        } else {
            cost + h
        },
    }
}

/// Board `t` is one move away from board `s`.
pub open spec fn in_moves(s: Seq<usize>, n: int, t: Seq<usize>) -> bool {
    exists|k: int| 0 <= k < moves(s, n).len() && #[trigger] moves(s, n)[k] == t
}

/// `p` leads from `from` to `to`, each board one move away from the one
/// before it.
pub open spec fn is_route(p: Seq<Seq<usize>>, n: int, from: Seq<usize>, to: Seq<usize>) -> bool {
    &&& p.len() >= 1
    &&& p[0] == from
    &&& p[p.len() - 1] == to
    &&& forall|i: int| 0 <= i < p.len() - 1 ==> in_moves(#[trigger] p[i], n, p[i + 1])
}

/// Some sequence of moves leads from `from` to `to`.
pub open spec fn reachable(from: Seq<usize>, to: Seq<usize>, n: int) -> bool {
    exists|p: Seq<Seq<usize>>| is_route(p, n, from, to)
}

/// Exchanging the blank with a label next to it is a move.
pub proof fn lemma_adjacent_is_move(s: Seq<usize>, n: int, y: int)
    requires
        is_board(s, n),
        adjacent(n, blank_pos(s), y),
    ensures
        in_moves(s, n, swapped(s, blank_pos(s), y)),
{
    let x = blank_pos(s);
    let a = if can_left(n, x) { seq![swapped(s, x, x - 1)] } else { seq![] };
    let b = if can_up(n, x) { seq![swapped(s, x, x - n)] } else { seq![] };
    let c = if can_right(n, x) { seq![swapped(s, x, x + 1)] } else { seq![] };
    let d = if can_down(n, x) { seq![swapped(s, x, x + n)] } else { seq![] };
    let m = moves(s, n);
    assert(m == a + b + c + d);
    let k: int = if y == x - 1 && x % n > 0 {
        0
    } else if y == x - n {
        a.len() as int
    } else if y == x + 1 && y % n > 0 {
        (a.len() + b.len()) as int
    } else {
        (a.len() + b.len() + c.len()) as int
    };
    assert(0 <= k < m.len() && m[k] == swapped(s, x, y));
}

/// A move can be taken back: the board it came from is one move away from
/// the board it leads to, which is a board too.
pub proof fn lemma_move_back(s: Seq<usize>, n: int, t: Seq<usize>)
    requires
        is_board(s, n),
        n >= 1,
        in_moves(s, n, t),
    ensures
        is_board(t, n),
        in_moves(t, n, s),
{
    lemma_board_blank(s, n);
    let x = blank_pos(s);
    let k = choose|k: int| 0 <= k < moves(s, n).len() && #[trigger] moves(s, n)[k] == t;
    lemma_moves_adjacent(s, n, k);
    let y = choose|y: int| adjacent(n, x, y) && moves(s, n)[k] == swapped(s, x, y);
    lemma_swapped_board(s, n, x, y);
    lemma_board_blank(t, n);
    assert(t[y] == 0);
    assert(blank_pos(t) == y);
    assert(adjacent(n, y, x));
    lemma_adjacent_is_move(t, n, x);
    assert(swapped(t, y, x) =~= s);
}

/// A route can start one move earlier.
pub proof fn lemma_route_prepends(first: Seq<usize>, from: Seq<usize>, to: Seq<usize>, n: int)
    requires
        in_moves(first, n, from),
        reachable(from, to, n),
    ensures
        reachable(first, to, n),
{
    let p = choose|p: Seq<Seq<usize>>| is_route(p, n, from, to);
    let q = seq![first] + p;
    assert forall|i: int| 0 <= i < q.len() - 1 implies in_moves(#[trigger] q[i], n, q[i + 1]) by {
        if i > 0 {
            assert(in_moves(p[i - 1], n, p[i - 1 + 1]));
            assert(q[i] == p[i - 1] && q[i + 1] == p[i]);
        } else {
            assert(q[0] == first && q[1] == p[0]);
        }
    }
    assert(q[q.len() - 1] == p[p.len() - 1]);
    assert(is_route(q, n, first, to));
}

/// A route goes on by one move.
pub proof fn lemma_route_extends(from: Seq<usize>, cur: Seq<usize>, next: Seq<usize>, n: int)
    requires
        reachable(from, cur, n),
        in_moves(cur, n, next),
    ensures
        reachable(from, next, n),
{
    let p = choose|p: Seq<Seq<usize>>| is_route(p, n, from, cur);
    let q = p.push(next);
    assert forall|i: int| 0 <= i < q.len() - 1 implies in_moves(#[trigger] q[i], n, q[i + 1]) by {
        if i < p.len() - 1 {
            assert(in_moves(p[i], n, p[i + 1]));
            assert(q[i] == p[i] && q[i + 1] == p[i + 1]);
        } else {
            assert(q[i] == cur && q[i + 1] == next);
        }
    }
    assert(is_route(q, n, from, next));
}

/// Every board can be reached from itself.
pub proof fn lemma_route_stays(s: Seq<usize>, n: int)
    ensures
        reachable(s, s, n),
{
    assert(is_route(seq![s], n, s, s));
}

/// The label sequences of a sequence of boards.
pub open spec fn states_of(path: Seq<Node>) -> Seq<Seq<usize>> {
    Seq::new(path.len(), |i: int| path[i].state@)
}

/// The table of a search over boards of side `n`: the start comes first,
/// every other entry was reached in one move from an earlier one and in one
/// move more, and every entry holds a board.
pub open spec fn table_ok(seen: Seq<Entry>, n: int) -> bool {
    &&& seen.len() >= 1
    &&& seen[0].parent == 0
    &&& seen[0].cost == 0
    &&& forall|i: int|
        0 <= i < seen.len() ==> (#[trigger] seen[i]).node.valid() && seen[i].node.len == n
            && seen[i].cost <= i
    &&& forall|i: int|
        0 < i < seen.len() ==> (#[trigger] seen[i]).parent < i && seen[i].cost
            == seen[seen[i].parent as int].cost + 1 && in_moves(
            seen[seen[i].parent as int].node.state@,
            n,
            seen[i].node.state@,
        )
}

/// The table holds board `t`.
pub open spec fn known(seen: Seq<Entry>, t: Seq<usize>) -> bool {
    exists|j: int| 0 <= j < seen.len() && (#[trigger] seen[j]).node.state@ == t
}

/// The table holds every board one move away from its `i`-th board.
pub open spec fn expanded(seen: Seq<Entry>, n: int, i: int) -> bool {
    forall|k: int|
        0 <= k < moves(seen[i].node.state@, n).len() ==> known(
            seen,
            #[trigger] moves(seen[i].node.state@, n)[k],
        )
}

/// The entry that the `i`-th entry was reached through after `d` moves: the
/// one among the entries that lead to it whose cost is `d`.
pub open spec fn ancestor_at(seen: Seq<Entry>, i: int, d: int) -> int
    decreases i,
{
    if i <= 0 || seen[i].cost <= d || seen[i].parent >= i {
        i
    } else {
        ancestor_at(seen, seen[i].parent as int, d)
    }
}

/// The `j`-th board of `path` is the board of the entry through which the
/// entry at `end` was reached after `base + j` moves, with its priority.
pub open spec fn on_chain(seen: Seq<Entry>, end: int, path: Seq<Node>, base: int, j: int) -> bool {
    let a = ancestor_at(seen, end, base + j);
    &&& 0 <= a <= end
    &&& seen[a].cost == base + j
    &&& path[j].state@ == seen[a].node.state@
    &&& path[j].len == seen[a].node.len
    &&& path[j].score == seen[a].node.score
}

/// The entries that lead to an entry are entries, one for each cost up to
/// its own, each reached from the one before it.
pub proof fn lemma_ancestors(seen: Seq<Entry>, n: int, i: int, d: int)
    requires
        table_ok(seen, n),
        0 <= i < seen.len(),
        0 <= d <= seen[i].cost,
    ensures
        0 <= ancestor_at(seen, i, d) <= i,
        seen[ancestor_at(seen, i, d)].cost == d,
        d == 0 ==> ancestor_at(seen, i, d) == 0,
        d < seen[i].cost ==> ancestor_at(seen, i, d) == seen[ancestor_at(seen, i, d + 1)].parent
            && ancestor_at(seen, i, d + 1) > 0,
    decreases i,
{
    if i > 0 && seen[i].cost > d {
        let p = seen[i].parent as int;
        assert(seen[i].parent < i);
        lemma_ancestors(seen, n, p, d);
        if d + 1 <= seen[p].cost {
            lemma_ancestors(seen, n, p, d + 1);
        }
    } else if i > 0 {
        assert(seen[i].parent < i);
    }
}

/// A board that the table holds stays in it when an entry is added, and so
/// does every board one move away from it.
pub proof fn lemma_push_keeps(seen: Seq<Entry>, e: Entry, n: int)
    ensures
        forall|t: Seq<usize>| #[trigger] known(seen, t) ==> known(seen.push(e), t),
        forall|i: int|
            0 <= i < seen.len() && #[trigger] expanded(seen, n, i) ==> expanded(seen.push(e), n, i),
        known(seen.push(e), e.node.state@),
{
    let more = seen.push(e);
    assert forall|t: Seq<usize>| #[trigger] known(seen, t) implies known(more, t) by {
        let j = choose|j: int| 0 <= j < seen.len() && (#[trigger] seen[j]).node.state@ == t;
        assert(more[j].node.state@ == t);
    }
    assert forall|i: int| 0 <= i < seen.len() && #[trigger] expanded(seen, n, i) implies expanded(
        more,
        n,
        i,
    ) by {
        assert(more[i] == seen[i]);
        assert forall|k: int| 0 <= k < moves(more[i].node.state@, n).len() implies known(
            more,
            #[trigger] moves(more[i].node.state@, n)[k],
        ) by {
            assert(known(seen, moves(seen[i].node.state@, n)[k]));
        }
    }
    assert(more[seen.len() as int].node.state@ == e.node.state@);
}

/// A table that holds every board one move away from each of its boards
/// holds every board that can be reached from its first.
pub proof fn lemma_closed_table(seen: Seq<Entry>, n: int, p: Seq<Seq<usize>>, j: int)
    requires
        seen.len() >= 1,
        forall|i: int| 0 <= i < seen.len() ==> expanded(seen, n, i),
        p.len() >= 1,
        p[0] == seen[0].node.state@,
        forall|i: int| 0 <= i < p.len() - 1 ==> in_moves(#[trigger] p[i], n, p[i + 1]),
        0 <= j < p.len(),
    ensures
        known(seen, p[j]),
    decreases j,
{
    if j > 0 {
        lemma_closed_table(seen, n, p, j - 1);
        let i = choose|i: int| 0 <= i < seen.len() && (#[trigger] seen[i]).node.state@ == p[j - 1];
        assert(expanded(seen, n, i));
        assert(in_moves(p[j - 1], n, p[j - 1 + 1]));
        let k = choose|k: int| 0 <= k < moves(p[j - 1], n).len() && #[trigger] moves(p[j - 1], n)[k] == p[j];
        assert(known(seen, moves(seen[i].node.state@, n)[k]));
    }
}

/// Whether two strings hold the same characters.
fn same_text(a: &str, b: &str) -> (res: bool)
    ensures
        res == (a@ == b@),
{
    let n = a.unicode_len();
    if n != b.unicode_len() {
        return false;
    }
    let mut i: usize = 0;
    while i < n
        invariant
            i <= n,
            n == a@.len(),
            n == b@.len(),
            forall|j: int| 0 <= j < i ==> a@[j] == b@[j],
        decreases n - i,
    {
        if a.get_char(i) != b.get_char(i) {
            return false;
        }
        i += 1;
    }
    assert(a@ =~= b@);
    true
}

/// The search mode of a name: `greedy` or `uniform`, in lower case. Any
/// other name has none.
pub fn str_to_search(s: &str) -> (res: Option<Search>)
    ensures
        res == mode_of(s@),
{
    if same_text(s, "greedy") {
        Some(Search::Greedy)
    } else if same_text(s, "uniform") {
        Some(Search::Uniform)
    } else {
        None
    }
}

/// The priority of a board reached in `cost` moves whose estimate is `h`.
pub fn priority(mode: Search, cost: usize, h: i32) -> (res: i32)
    requires
        0 <= h,
    ensures
        res == priority_of(mode, cost as int, h as int),
{
    match mode {
        Search::Greedy => h,
        Search::Uniform => {
            let room: i32 = i32::MAX - h;
            if cost > room as usize {
                i32::MAX
            } else {
                cost as i32 + h
            }
        },
    }
}

/// The key under which the first `k` labels of `s` are filed: the labels
/// read as the digits of a number to the base 31, modulo a prime.
pub open spec fn key_upto(s: Seq<usize>, k: int) -> int
    decreases k,
{
    if k <= 0 {
        0
    } else {
        (key_upto(s, k - 1) * 31 + (s[k - 1] as int) % 4294967291) % 4294967291
    }
}

/// The key under which board `s` is filed.
pub open spec fn key_of(s: Seq<usize>) -> u64 {
    key_upto(s, s.len() as int) as u64
}

/// The file under `key` names entry `i`.
pub open spec fn listed(index: Map<u64, Vec<usize>>, key: u64, i: int) -> bool {
    index.dom().contains(key) && exists|p: int|
        0 <= p < index[key]@.len() && #[trigger] index[key]@[p] == i
}

/// `index` files the table: each entry is named in the file under the key of
/// its board, and the files name entries only.
pub open spec fn index_ok(index: Map<u64, Vec<usize>>, seen: Seq<Entry>) -> bool {
    &&& forall|i: int|
        0 <= i < seen.len() ==> listed(index, key_of((#[trigger] seen[i]).node.state@), i)
    &&& forall|key: u64, p: int|
        index.dom().contains(key) && 0 <= p < index[key]@.len() ==> (#[trigger] index[key]@[p])
            < seen.len()
}

/// The key under which a board is filed.
pub fn state_key(state: &Vec<usize>) -> (res: u64)
    ensures
        res == key_of(state@),
{
    let mut key: u64 = 0;
    let mut k: usize = 0;
    while k < state.len()
        invariant
            k <= state@.len(),
            key == key_upto(state@, k as int),
            key < 4294967291,
        decreases state@.len() - k,
    {
        let label: u64 = state[k] as u64;
        key = (key * 31 + label % 4294967291) % 4294967291;
        k += 1;
    }
    key
}

/// The place in the table of the board with the labels of `node`, if the
/// table holds it. Only the entries filed under the key of that board are
/// looked at.
pub fn find_known(seen: &Vec<Entry>, index: &HashMap<u64, Vec<usize>>, node: &Node) -> (res: Option<
    usize,
>)
    requires
        index_ok(index@, seen@),
    ensures
        res.is_some() == known(seen@, node.state@),
        res.is_some() ==> res.unwrap() < seen@.len() && seen@[res.unwrap() as int].node.state@
            == node.state@,
{
    let key = state_key(&node.state);
    match index.get(&key) {
        None => {
            assert(!known(seen@, node.state@)) by {
                if known(seen@, node.state@) {
                    let j = choose|j: int|
                        0 <= j < seen@.len() && (#[trigger] seen@[j]).node.state@ == node.state@;
                    assert(listed(index@, key_of(seen@[j].node.state@), j));
                }
            }
            None
        },
        Some(file) => {
            let mut p: usize = 0;
            while p < file.len()
                invariant
                    index_ok(index@, seen@),
                    index@.dom().contains(key),
                    index@[key] == *file,
                    p <= file@.len(),
                    forall|r: int|
                        0 <= r < p ==> seen@[(#[trigger] file@[r]) as int].node.state@ != node.state@,
                decreases file@.len() - p,
            {
                let at = file[p];
                assert(index@[key]@[p as int] < seen@.len());
                if seen[at].node.same_state(node) {
                    return Some(at);
                }
                p += 1;
            }
            assert(!known(seen@, node.state@)) by {
                if known(seen@, node.state@) {
                    let j = choose|j: int|
                        0 <= j < seen@.len() && (#[trigger] seen@[j]).node.state@ == node.state@;
                    assert(listed(index@, key_of(seen@[j].node.state@), j));
                    let r = choose|r: int| 0 <= r < index@[key]@.len() && #[trigger] index@[key]@[r] == j;
                    assert(seen@[file@[r] as int].node.state@ != node.state@);
                }
            }
            None
        },
    }
}

/// Adds an entry to the table and files it.
pub fn enter(seen: &mut Vec<Entry>, index: &mut HashMap<u64, Vec<usize>>, entry: Entry)
    requires
        index_ok(old(index)@, old(seen)@),
    ensures
        final(seen)@ == old(seen)@.push(entry),
        index_ok(final(index)@, final(seen)@),
{
    let key = state_key(&entry.node.state);
    let place = seen.len();
    let ghost table = seen@;
    let ghost files = index@;
    seen.push(entry);
    let mut file = match index.remove(&key) {
        Some(f) => f,
        None => Vec::new(),
    };
    let ghost had = file@;
    file.push(place);
    index.insert(key, file);
    proof {
        assert forall|i: int| 0 <= i < seen@.len() implies listed(
            index@,
            key_of((#[trigger] seen@[i]).node.state@),
            i,
        ) by {
            let ki = key_of(seen@[i].node.state@);
            if i < table.len() {
                assert(seen@[i] == table[i]);
                assert(listed(files, ki, i));
                if ki == key {
                    let p = choose|p: int| 0 <= p < files[ki]@.len() && #[trigger] files[ki]@[p] == i;
                    assert(index@[key]@[p] == i);
                } else {
                    assert(index@[ki] == files[ki]);
                }
            } else {
                assert(index@[key]@[had.len() as int] == i);
            }
        }
        assert forall|k2: u64, p: int|
            index@.dom().contains(k2) && 0 <= p < index@[k2]@.len() implies (#[trigger] index@[k2]@[p])
            < seen@.len() by {
            if k2 == key {
                if p < had.len() {
                    assert(files.dom().contains(key));
                    assert(files[key]@[p] < table.len());
                }
            } else {
                assert(index@[k2] == files[k2]);
                assert(files[k2]@[p] < table.len());
            }
        }
    }
}

/// Takes out of `frontier` the entry of lowest priority, and among several
/// of them the one that has waited longest; returns its place in the table.
pub fn pop_lowest(frontier: &mut Vec<usize>, seen: &Vec<Entry>) -> (res: (usize, usize))
    requires
        old(frontier)@.len() >= 1,
        forall|f: int| 0 <= f < old(frontier)@.len() ==> (#[trigger] old(frontier)@[f]) < seen@.len(),
    ensures
        res.1 < old(frontier)@.len(),
        res.0 == old(frontier)@[res.1 as int],
        final(frontier)@ == old(frontier)@.remove(res.1 as int),
        forall|f: int|
            0 <= f < old(frontier)@.len() ==> seen@[res.0 as int].node.score <= seen@[(#[trigger] old(
                frontier,
            )@[f]) as int].node.score,
        forall|f: int|
            0 <= f < res.1 ==> seen@[res.0 as int].node.score < seen@[(#[trigger] old(frontier)@[f]) as int].node.score,
{
    let mut best: usize = 0;
    let mut f: usize = 1;
    while f < frontier.len()
        invariant
            frontier@ == old(frontier)@,
            best < f <= frontier@.len(),
            forall|g: int| 0 <= g < frontier@.len() ==> (#[trigger] frontier@[g]) < seen@.len(),
            forall|g: int|
                0 <= g < f ==> seen@[frontier@[best as int] as int].node.score <= seen@[(
                #[trigger] frontier@[g]) as int].node.score,
            forall|g: int|
                0 <= g < best ==> seen@[frontier@[best as int] as int].node.score < seen@[(
                #[trigger] frontier@[g]) as int].node.score,
        decreases frontier@.len() - f,
    {
        if seen[frontier[f]].node.score < seen[frontier[best]].node.score {
            best = f;
        }
        f += 1;
    }
    let idx = frontier.remove(best);
    (idx, best)
}

/// The boards through which the entry at `end` was reached, from the start
/// to that entry: one board for each cost from 0 to the entry's own.
pub fn reconstruct_path(seen: &Vec<Entry>, end: usize) -> (res: Vec<Node>)
    requires
        seen@.len() >= 1,
        table_ok(seen@, seen@[0].node.len as int),
        end < seen@.len(),
    ensures
        res@.len() == seen@[end as int].cost + 1,
        forall|j: int| 0 <= j < res@.len() ==> #[trigger] on_chain(seen@, end as int, res@, 0, j),
{
    let mut total_path: Vec<Node> = Vec::new();
    total_path.push(seen[end].node.clone());
    let mut current = end;
    let ghost top = seen@[end as int].cost as int;
    let ghost n = seen@[0].node.len as int;
    proof {
        lemma_ancestors(seen@, n, end as int, top);
    }
    while current != 0
        invariant
            table_ok(seen@, n),
            end < seen@.len(),
            current <= end,
            top == seen@[end as int].cost,
            seen@[current as int].cost <= top,
            current == ancestor_at(seen@, end as int, seen@[current as int].cost as int),
            total_path@.len() == top - seen@[current as int].cost + 1,
            forall|j: int|
                0 <= j < total_path@.len() ==> #[trigger] on_chain(
                    seen@,
                    end as int,
                    total_path@,
                    seen@[current as int].cost as int,
                    j,
                ),
        decreases current,
    {
        let ghost before = total_path@;
        let ghost d = seen@[current as int].cost as int;
        proof {
            assert(seen@[current as int].parent < current);
            lemma_ancestors(seen@, n, end as int, d - 1);
        }
        current = seen[current].parent;
        let node = seen[current].node.clone();
        total_path.insert(0, node);
        proof {
            assert forall|j: int| 0 <= j < total_path@.len() implies #[trigger] on_chain(
                seen@,
                end as int,
                total_path@,
                d - 1,
                j,
            ) by {
                if j > 0 {
                    assert(total_path@[j] == before[j - 1]);
                    assert(on_chain(seen@, end as int, before, d, j - 1));
                }
            }
        }
    }
    total_path
}

/// Entry `i` of the table waits in `frontier`.
pub open spec fn waiting(frontier: Seq<usize>, i: int) -> bool {
    exists|f: int| 0 <= f < frontier.len() && #[trigger] frontier[f] == i
}

/// An entry other than the one taken out of the frontier still waits there.
pub proof fn lemma_remove_keeps(frontier: Seq<usize>, at: int, i: int)
    requires
        0 <= at < frontier.len(),
        waiting(frontier, i),
        frontier[at] != i,
    ensures
        waiting(frontier.remove(at), i),
{
    let f = choose|f: int| 0 <= f < frontier.len() && #[trigger] frontier[f] == i;
    let rest = frontier.remove(at);
    if f < at {
        assert(rest[f] == i);
    } else {
        assert(rest[f - 1] == i);
    }
}

/// What a search that reached `goal` from the board `from` returns: boards
/// that lead from `from` to the goal, each one move away from the one before
/// it and each with the priority it was given, the `j`-th that of a board
/// reached in `j` moves; and counts of which the number of admitted boards
/// is at least the number of moves and at least the largest number that
/// waited at one time.
pub open spec fn found(r: Results, from: Seq<usize>, goal: Goal, h: Heuristic, mode: Search) -> bool {
    let n = goal.node.len as int;
    &&& is_route(states_of(r.path@), n, from, goal.node.state@)
    &&& forall|j: int|
        0 <= j < r.path@.len() ==> (#[trigger] r.path@[j]).valid() && r.path@[j].len == n
            && r.path@[j].score == priority_of(mode, j, h.score(r.path@[j].state@, n, goal.map@))
    &&& r.path@.len() - 1 <= r.total_states
    &&& r.max_states <= r.total_states
}

/// Every entry of the table has the priority of its cost and its estimate.
pub open spec fn scored(seen: Seq<Entry>, goal: Goal, h: Heuristic, mode: Search) -> bool {
    forall|i: int|
        0 <= i < seen.len() ==> (#[trigger] seen[i]).node.score == priority_of(
            mode,
            seen[i].cost as int,
            h.score(seen[i].node.state@, goal.node.len as int, goal.map@),
        )
}

/// The path that leads to an entry of a sound table is what a search
/// returns when that entry holds the goal.
pub proof fn lemma_path_found(
    seen: Seq<Entry>,
    end: int,
    r: Results,
    goal: Goal,
    h: Heuristic,
    mode: Search,
)
    requires
        table_ok(seen, goal.node.len as int),
        scored(seen, goal, h, mode),
        0 <= end < seen.len(),
        seen[end].node.state@ == goal.node.state@,
        r.path@.len() == seen[end].cost + 1,
        forall|j: int| 0 <= j < r.path@.len() ==> #[trigger] on_chain(seen, end, r.path@, 0, j),
        r.total_states == seen.len() - 1,
        r.max_states <= r.total_states,
    ensures
        found(r, seen[0].node.state@, goal, h, mode),
{
    let n = goal.node.len as int;
    let p = states_of(r.path@);
    let top = seen[end].cost as int;
    lemma_ancestors(seen, n, end, 0);
    lemma_ancestors(seen, n, end, top);
    assert(on_chain(seen, end, r.path@, 0, 0));
    assert(on_chain(seen, end, r.path@, 0, top));
    assert forall|i: int| 0 <= i < p.len() - 1 implies in_moves(#[trigger] p[i], n, p[i + 1]) by {
        lemma_ancestors(seen, n, end, i);
        assert(on_chain(seen, end, r.path@, 0, i));
        assert(on_chain(seen, end, r.path@, 0, i + 1));
        let b = ancestor_at(seen, end, i + 1);
        assert(seen[b].parent < b);
    }
    assert forall|j: int| 0 <= j < r.path@.len() implies (#[trigger] r.path@[j]).valid()
        && r.path@[j].len == n && r.path@[j].score == priority_of(
        mode,
        j,
        h.score(r.path@[j].state@, n, goal.map@),
    ) by {
        assert(on_chain(seen, end, r.path@, 0, j));
        let a = ancestor_at(seen, end, j);
        assert(seen[a].node.valid());
    }
}

/// Searches for the goal from `start`, best board first. The start gets its
/// estimate as priority. The board of lowest priority is taken from those that
/// wait, the one that has waited longest among equals; if it is the goal, the
/// boards that led to it are returned. Otherwise each board one move away
/// from it that was never met before is admitted, with its priority, and
/// waits. A board that was met before is passed over, whatever the cost at
/// which it is met again. When no board waits any more the goal cannot be
/// reached, and the search returns nothing.
pub fn astar(start: &mut Node, goal: &Goal, heuristic: &Heuristic, search: &str) -> (res: Option<
    Results,
>)
    requires
        scorable(*old(start), *goal),
        old(start).valid(),
        mode_of(search@) is Some,
    ensures
        final(start).state@ == old(start).state@,
        final(start).len == old(start).len,
        final(start).score == heuristic.score(old(start).state@, old(start).len as int, goal.map@),
        res is Some <==> reachable(old(start).state@, goal.node.state@, old(start).len as int),
        res is Some ==> found(
            res.unwrap(),
            old(start).state@,
            *goal,
            *heuristic,
            mode_of(search@).unwrap(),
        ),
        old(start).state@ == goal.node.state@ ==> res is Some && res.unwrap().path@.len() == 1
            && res.unwrap().total_states == 0 && res.unwrap().max_states == 0,
{
    let mode = match str_to_search(search) {
        Some(m) => m,
        None => {
            return None;
        },
    };
    let first = start.clone();
    let h0 = heuristic.get_score(&first, goal);
    start.score = h0;
    let ghost n = first.len as int;
    let ghost from = first.state@;
    let mut seen: Vec<Entry> = Vec::new();
    let mut index: HashMap<u64, Vec<usize>> = HashMap::new();
    let mut open: Vec<bool> = Vec::new();
    let mut frontier: Vec<usize> = Vec::new();
    let mut seed = first;
    seed.score = h0;
    enter(&mut seen, &mut index, Entry { node: seed, parent: 0, cost: 0 });
    open.push(true);
    frontier.push(0);
    let mut max_states: usize = 0;
    let mut total_states: usize = 0;
    let ghost mut pops: int = 0;
    proof {
        assert(frontier@[0] == 0);
    }
    while frontier.len() > 0
        invariant
            start.state@ == from,
            start.len == n,
            start.score == heuristic.score(from, n, goal.map@),
            from == old(start).state@,
            n == old(start).len,
            goal.wf(),
            goal.node.len == n,
            n <= MAX_SIDE,
            mode_of(search@) == Some(mode),
            table_ok(seen@, n),
            index_ok(index@, seen@),
            scored(seen@, *goal, *heuristic, mode),
            seen@[0].node.state@ == from,
            open@.len() == seen@.len(),
            seen@.len() <= usize::MAX,
            forall|f: int| 0 <= f < frontier@.len() ==> (#[trigger] frontier@[f]) < seen@.len(),
            forall|i: int| 0 <= i < seen@.len() && #[trigger] open@[i] ==> waiting(frontier@, i),
            forall|i: int|
                0 <= i < seen@.len() && !(#[trigger] open@[i]) ==> seen@[i].node.state@
                    != goal.node.state@ && expanded(seen@, n, i),
            pops >= 0,
            frontier@.len() + pops == seen@.len(),
            total_states == seen@.len() - 1,
            max_states <= total_states,
            pops == 0 ==> seen@.len() == 1 && max_states == 0,
            pops >= 1 ==> from != goal.node.state@,
        decreases 2 * (usize::MAX - seen@.len()) + frontier@.len(),
    {
        let ghost measure = 2 * (usize::MAX - seen@.len()) + frontier@.len();
        let ghost waited = frontier@;
        let (cur, at) = pop_lowest(&mut frontier, &seen);
        let current = seen[cur].node.clone();
        if current == goal.node {
            let path = reconstruct_path(&seen, cur);
            let r = Results { path, max_states, total_states };
            proof {
                lemma_path_found(seen@, cur as int, r, *goal, *heuristic, mode);
                assert(is_route(states_of(r.path@), n, from, goal.node.state@));
                if from == goal.node.state@ {
                    assert(pops == 0);
                    assert(cur == 0);
                }
            }
            return Some(r);
        }
        open.set(cur, false);
        proof {
            pops = pops + 1;
            if cur == 0 {
                assert(from != goal.node.state@);
            }
            assert forall|i: int| 0 <= i < seen@.len() && #[trigger] open@[i] implies waiting(
                frontier@,
                i,
            ) by {
                lemma_remove_keeps(waited, at as int, i);
            }
            if n == 0 {
                assert(current.state@ =~= goal.node.state@);
            }
            lemma_board_blank(current.state@, n);
        }
        let nbs = current.get_neighbour();
        let mut q: usize = 0;
        while q < nbs.len()
            invariant
                start.state@ == from,
                start.len == n,
                start.score == heuristic.score(from, n, goal.map@),
                from == old(start).state@,
                n == old(start).len,
                goal.wf(),
                goal.node.len == n,
                n <= MAX_SIDE,
                mode_of(search@) == Some(mode),
                table_ok(seen@, n),
                index_ok(index@, seen@),
                scored(seen@, *goal, *heuristic, mode),
                seen@[0].node.state@ == from,
                open@.len() == seen@.len(),
                seen@.len() <= usize::MAX,
                forall|f: int| 0 <= f < frontier@.len() ==> (#[trigger] frontier@[f]) < seen@.len(),
                forall|i: int| 0 <= i < seen@.len() && #[trigger] open@[i] ==> waiting(frontier@, i),
                forall|i: int|
                    0 <= i < seen@.len() && i != cur && !(#[trigger] open@[i]) ==> seen@[i].node.state@
                        != goal.node.state@ && expanded(seen@, n, i),
                cur < seen@.len(),
                !open@[cur as int],
                seen@[cur as int].node.state@ == current.state@,
                current.state@ != goal.node.state@,
                q <= nbs@.len(),
                nbs@.len() == moves(current.state@, n).len(),
                forall|k: int|
                    0 <= k < nbs@.len() ==> (#[trigger] nbs@[k]).state@ == moves(current.state@, n)[k]
                        && nbs@[k].len == n && nbs@[k].valid(),
                forall|k: int| 0 <= k < q ==> known(seen@, (#[trigger] nbs@[k]).state@),
                pops >= 1,
                frontier@.len() + pops == seen@.len(),
                total_states == seen@.len() - 1,
                max_states <= total_states,
                from != goal.node.state@,
                2 * (usize::MAX - seen@.len()) + frontier@.len() < measure,
            decreases nbs@.len() - q,
        {
            let met = find_known(&seen, &index, &nbs[q]);
            if met.is_none() {
                let cost: usize = seen[cur].cost + 1;
                let mut nb = nbs[q].clone();
                let h = heuristic.get_score(&nb, goal);
                nb.score = priority(mode, cost, h);
                let entry = Entry { node: nb, parent: cur, cost };
                proof {
                    lemma_push_keeps(seen@, entry, n);
                    assert(moves(seen@[cur as int].node.state@, n)[q as int] == entry.node.state@);
                }
                let ghost table = seen@;
                let ghost waited2 = frontier@;
                enter(&mut seen, &mut index, entry);
                open.push(true);
                let place: usize = seen.len() - 1;
                frontier.push(place);
                total_states += 1;
                if frontier.len() > max_states {
                    max_states = frontier.len();
                }
                proof {
                    assert forall|i: int|
                        0 <= i < seen@.len() && #[trigger] open@[i] implies waiting(frontier@, i) by {
                        if i < table.len() {
                            let f = choose|f: int| 0 <= f < waited2.len() && #[trigger] waited2[f] == i;
                            assert(frontier@[f] == i);
                        } else {
                            assert(frontier@[waited2.len() as int] == i);
                        }
                    }
                    assert forall|i: int| 0 <= i < seen@.len() implies (#[trigger] seen@[i]).node.valid()
                        && seen@[i].node.len == n && seen@[i].cost <= i by {
                        if i < table.len() {
                            assert(seen@[i] == table[i]);
                        }
                    }
                    assert forall|i: int| 0 < i < seen@.len() implies (#[trigger] seen@[i]).parent < i
                        && seen@[i].cost == seen@[seen@[i].parent as int].cost + 1 && in_moves(
                        seen@[seen@[i].parent as int].node.state@,
                        n,
                        seen@[i].node.state@,
                    ) by {
                        if i < table.len() {
                            assert(seen@[i] == table[i]);
                            assert(seen@[table[i].parent as int] == table[table[i].parent as int]);
                        } else {
                            assert(seen@[cur as int] == table[cur as int]);
                        }
                    }
                    assert forall|i: int| 0 <= i < seen@.len() implies (#[trigger] seen@[i]).node.score
                        == priority_of(
                        mode,
                        seen@[i].cost as int,
                        heuristic.score(seen@[i].node.state@, goal.node.len as int, goal.map@),
                    ) by {
                        if i < table.len() {
                            assert(seen@[i] == table[i]);
                        }
                    }
                    assert forall|k: int| 0 <= k < q + 1 implies known(
                        seen@,
                        (#[trigger] nbs@[k]).state@,
                    ) by {
                        if k < q {
                            assert(known(table, nbs@[k].state@));
                        }
                    }
                    assert forall|i: int|
                        0 <= i < seen@.len() && i != cur && !(#[trigger] open@[i]) implies seen@[i].node.state@
                        != goal.node.state@ && expanded(seen@, n, i) by {
                        assert(seen@[i] == table[i]);
                        assert(expanded(table, n, i));
                    }
                }
            }
            q += 1;
        }
        proof {
            assert forall|k: int| 0 <= k < moves(seen@[cur as int].node.state@, n).len() implies known(
                seen@,
                #[trigger] moves(seen@[cur as int].node.state@, n)[k],
            ) by {
                assert(known(seen@, nbs@[k].state@));
            }
            assert(expanded(seen@, n, cur as int));
        }
    }
    proof {
        if reachable(from, goal.node.state@, n) {
            let p = choose|p: Seq<Seq<usize>>| is_route(p, n, from, goal.node.state@);
            assert forall|i: int| 0 <= i < seen@.len() implies expanded(seen@, n, i) by {
                if open@[i] {
                    assert(waiting(frontier@, i));
                }
            }
            lemma_closed_table(seen@, n, p, p.len() - 1);
            let i = choose|i: int|
                0 <= i < seen@.len() && (#[trigger] seen@[i]).node.state@ == goal.node.state@;
            assert(!open@[i]) by {
                if open@[i] {
                    assert(waiting(frontier@, i));
                }
            }
        }
    }
    None
}

} // verus!
