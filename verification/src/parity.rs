//! Why a move keeps the parity of the number of inverted pairs: in the order
//! of the spiral walk a move carries one tile over an even number of tiles.

use crate::astar::{in_moves, is_route, reachable};
use crate::node::{
    adjacent, blank_pos, goal_label_at, goal_state, inversions, inversions_upto, inversions_with,
    is_board, lemma_board_blank, lemma_goal_board, lemma_moves_adjacent, lemma_swapped_board,
    linearized, moves, swapped,
};
use crate::spiral::{
    lemma_index_of_rank, lemma_index_parts, lemma_rank_of_index, lemma_row_col, spiral_index,
    spiral_pos, spiral_rank,
};
use vstd::prelude::*;

verus! {

/// The number of places `j` with `a <= j < b` at which `l` holds a tile,
/// not the blank, that is smaller than `v`.
pub open spec fn below(l: Seq<usize>, v: int, a: int, b: int) -> int
    decreases b - a,
{
    if b <= a {
        0
    } else {
        below(l, v, a, b - 1) + if l[b - 1] != 0 && v > l[b - 1] {
            1int
        } else {
            0int
        }
    }
}

/// The number of places `j` with `a <= j < b` at which `l` holds a label
/// larger than `v`.
pub open spec fn above(l: Seq<usize>, v: int, a: int, b: int) -> int
    decreases b - a,
{
    if b <= a {
        0
    } else {
        above(l, v, a, b - 1) + if l[b - 1] > v {
            1int
        } else {
            0int
        }
    }
}

/// The number of inverted pairs whose earlier member stands at a place `i`
/// with `a <= i < b`.
pub open spec fn rows(l: Seq<usize>, a: int, b: int) -> int
    decreases b - a,
{
    if b <= a {
        0
    } else {
        rows(l, a, b - 1) + inversions_with(l, b - 1, l.len() as int)
    }
}

proof fn lemma_with_is_below(l: Seq<usize>, i: int, k: int)
    ensures
        inversions_with(l, i, k) == below(l, l[i] as int, i + 1, k),
    decreases k - i,
{
    if k > i + 1 {
        lemma_with_is_below(l, i, k - 1);
    }
}

proof fn lemma_below_split(l: Seq<usize>, v: int, a: int, b: int, c: int)
    requires
        a <= b <= c,
    ensures
        below(l, v, a, c) == below(l, v, a, b) + below(l, v, b, c),
    decreases c - b,
{
    if c > b {
        lemma_below_split(l, v, a, b, c - 1);
    }
}

proof fn lemma_below_same(l: Seq<usize>, m: Seq<usize>, v: int, a: int, b: int)
    requires
        forall|j: int| a <= j < b ==> l[j] == m[j],
    ensures
        below(l, v, a, b) == below(m, v, a, b),
    decreases b - a,
{
    if b > a {
        lemma_below_same(l, m, v, a, b - 1);
    }
}

proof fn lemma_below_blank(l: Seq<usize>, a: int, b: int)
    ensures
        below(l, 0, a, b) == 0,
    decreases b - a,
{
    if b > a {
        lemma_below_blank(l, a, b - 1);
    }
}

proof fn lemma_below_above(l: Seq<usize>, v: int, a: int, b: int)
    requires
        a <= b,
        forall|j: int| a <= j < b ==> l[j] != 0 && l[j] != v,
    ensures
        below(l, v, a, b) + above(l, v, a, b) == b - a,
    decreases b - a,
{
    if b > a {
        lemma_below_above(l, v, a, b - 1);
    }
}

proof fn lemma_rows_split(l: Seq<usize>, a: int, b: int, c: int)
    requires
        a <= b <= c,
    ensures
        rows(l, a, c) == rows(l, a, b) + rows(l, b, c),
    decreases c - b,
{
    if c > b {
        lemma_rows_split(l, a, b, c - 1);
    }
}

proof fn lemma_rows_upto(l: Seq<usize>, k: int)
    ensures
        inversions_upto(l, k) == rows(l, 0, k),
    decreases k,
{
    if k > 0 {
        lemma_rows_upto(l, k - 1);
    }
}

/// The pairs of one earlier place, when the blank at `p` and the tile at `q`
/// change places.
proof fn lemma_row_change(l: Seq<usize>, p: int, q: int, i: int)
    requires
        0 <= p < q < l.len(),
        l[p] == 0,
        l[q] != 0,
        0 <= i < l.len(),
    ensures
        i < p || i > q ==> inversions_with(swapped(l, p, q), i, l.len() as int) == inversions_with(
            l,
            i,
            l.len() as int,
        ),
        p < i < q ==> inversions_with(swapped(l, p, q), i, l.len() as int) == inversions_with(
            l,
            i,
            l.len() as int,
        ) - if l[i] > l[q] {
            1int
        } else {
            0int
        },
        i == p ==> inversions_with(l, i, l.len() as int) == 0 && inversions_with(
            swapped(l, p, q),
            i,
            l.len() as int,
        ) == below(l, l[q] as int, p + 1, q) + below(l, l[q] as int, q + 1, l.len() as int),
        i == q ==> inversions_with(swapped(l, p, q), i, l.len() as int) == 0 && inversions_with(
            l,
            i,
            l.len() as int,
        ) == below(l, l[q] as int, q + 1, l.len() as int),
{
    let m = swapped(l, p, q);
    let n = l.len() as int;
    let w = l[i] as int;
    let v = l[q] as int;
    lemma_with_is_below(l, i, n);
    lemma_with_is_below(m, i, n);
    if i < p {
        lemma_below_split(l, w, i + 1, p, n);
        lemma_below_split(l, w, p, p + 1, n);
        lemma_below_split(l, w, p + 1, q, n);
        lemma_below_split(l, w, q, q + 1, n);
        lemma_below_split(m, w, i + 1, p, n);
        lemma_below_split(m, w, p, p + 1, n);
        lemma_below_split(m, w, p + 1, q, n);
        lemma_below_split(m, w, q, q + 1, n);
        lemma_below_same(l, m, w, i + 1, p);
        lemma_below_same(l, m, w, p + 1, q);
        lemma_below_same(l, m, w, q + 1, n);
        assert(below(l, w, p, p + 1) == below(l, w, p, p) + 0);
        assert(below(m, w, q, q + 1) == below(m, w, q, q) + 0);
        assert(below(m, w, p, p + 1) == below(m, w, p, p) + if w > v { 1int } else { 0int });
        assert(below(l, w, q, q + 1) == below(l, w, q, q) + if w > v { 1int } else { 0int });
    } else if i == p {
        lemma_below_blank(l, p + 1, n);
        lemma_below_split(m, v, p + 1, q, n);
        lemma_below_split(m, v, q, q + 1, n);
        lemma_below_same(l, m, v, p + 1, q);
        lemma_below_same(l, m, v, q + 1, n);
        assert(below(m, v, q, q + 1) == below(m, v, q, q) + 0);
    } else if i < q {
        lemma_below_split(l, w, i + 1, q, n);
        lemma_below_split(l, w, q, q + 1, n);
        lemma_below_split(m, w, i + 1, q, n);
        lemma_below_split(m, w, q, q + 1, n);
        lemma_below_same(l, m, w, i + 1, q);
        lemma_below_same(l, m, w, q + 1, n);
        assert(below(m, w, q, q + 1) == below(m, w, q, q) + 0);
        assert(below(l, w, q, q + 1) == below(l, w, q, q) + if w > v { 1int } else { 0int });
    } else if i == q {
        lemma_below_blank(m, q + 1, n);
    } else {
        lemma_below_same(l, m, w, i + 1, n);
    }
}

proof fn lemma_rows_outside(l: Seq<usize>, p: int, q: int, a: int, b: int)
    requires
        0 <= p < q < l.len(),
        l[p] == 0,
        l[q] != 0,
        0 <= a <= b <= l.len(),
        b <= p || a > q,
    ensures
        rows(swapped(l, p, q), a, b) == rows(l, a, b),
    decreases b - a,
{
    if b > a {
        lemma_rows_outside(l, p, q, a, b - 1);
        lemma_row_change(l, p, q, b - 1);
    }
}

proof fn lemma_rows_between(l: Seq<usize>, p: int, q: int, b: int)
    requires
        0 <= p < q < l.len(),
        l[p] == 0,
        l[q] != 0,
        p + 1 <= b <= q,
    ensures
        rows(swapped(l, p, q), p + 1, b) == rows(l, p + 1, b) - above(l, l[q] as int, p + 1, b),
    decreases b - p,
{
    if b > p + 1 {
        lemma_rows_between(l, p, q, b - 1);
        lemma_row_change(l, p, q, b - 1);
    }
}

/// When the blank and a tile an odd number of places after it change
/// places, the number of inverted pairs keeps its parity.
pub proof fn lemma_swap_parity(l: Seq<usize>, p: int, q: int)
    requires
        0 <= p < q < l.len(),
        l[p] == 0,
        (q - p) % 2 == 1,
        forall|i: int, j: int| 0 <= i < j < l.len() ==> l[i] != l[j],
    ensures
        inversions(swapped(l, p, q)) % 2 == inversions(l) % 2,
{
    let m = swapped(l, p, q);
    let n = l.len() as int;
    let v = l[q] as int;
    assert(l[p] != l[q]);
    lemma_rows_upto(l, n);
    lemma_rows_upto(m, n);
    lemma_rows_split(l, 0, p, n);
    lemma_rows_split(l, p, p + 1, n);
    lemma_rows_split(l, p + 1, q, n);
    lemma_rows_split(l, q, q + 1, n);
    lemma_rows_split(m, 0, p, n);
    lemma_rows_split(m, p, p + 1, n);
    lemma_rows_split(m, p + 1, q, n);
    lemma_rows_split(m, q, q + 1, n);
    lemma_rows_outside(l, p, q, 0, p);
    lemma_rows_outside(l, p, q, q + 1, n);
    lemma_rows_between(l, p, q, q);
    lemma_row_change(l, p, q, p);
    lemma_row_change(l, p, q, q);
    assert(rows(l, p, p + 1) == rows(l, p, p) + inversions_with(l, p, n));
    assert(rows(m, p, p + 1) == rows(m, p, p) + inversions_with(m, p, n));
    assert(rows(l, q, q + 1) == rows(l, q, q) + inversions_with(l, q, n));
    assert(rows(m, q, q + 1) == rows(m, q, q) + inversions_with(m, q, n));
    assert forall|j: int| p + 1 <= j < q implies l[j] != 0 && l[j] != v by {
        assert(l[p] != l[j]);
        assert(l[j] != l[q]);
    }
    lemma_below_above(l, v, p + 1, q);
    let d = above(l, v, p + 1, q);
    assert(inversions(m) as int == inversions(l) as int + (q - p - 1) - 2 * d);
}

/// Along the spiral walk the places are even and odd in turn, as the sum of
/// column and row is.
pub proof fn lemma_pos_parity(n: int, off: int, c: int, r: int)
    requires
        n >= 1,
        off <= c < off + n,
        off <= r < off + n,
    ensures
        (spiral_pos(n, off, c, r) + c + r) % 2 == 0,
    decreases n,
{
    if n >= 2 && !(r == off || c == off + n - 1 || r == off + n - 1 || c == off) {
        lemma_pos_parity(n - 2, off + 1, c, r);
    }
}

/// Two positions next to each other on the grid are an odd number of places
/// apart in the spiral walk.
pub proof fn lemma_adjacent_ranks(n: int, x: int, y: int)
    requires
        adjacent(n, x, y),
    ensures
        0 <= spiral_rank(n, x) < n * n,
        0 <= spiral_rank(n, y) < n * n,
        (spiral_rank(n, x) - spiral_rank(n, y)) % 2 == 1,
{
    lemma_index_parts(n, x);
    lemma_index_parts(n, y);
    lemma_index_of_rank(n, x);
    lemma_index_of_rank(n, y);
    let c = x % n;
    let r = x / n;
    lemma_pos_parity(n, 0, c, r);
    lemma_pos_parity(n, 0, y % n, y / n);
    if y == x - 1 && x % n > 0 {
        lemma_row_col(n, c - 1, r);
    } else if y == x + 1 && y % n > 0 {
        lemma_row_col(n, y % n - 1, y / n);
    } else if y == x - n {
        assert((r - 1) * n + c == r * n + c - n) by (nonlinear_arith);
        if r == 0 {
            assert(r * n == 0) by (nonlinear_arith)
                requires
                    r == 0,
            ;
        }
        lemma_row_col(n, c, r - 1);
    } else {
        assert((r + 1) * n + c == r * n + c + n) by (nonlinear_arith);
        if r + 1 >= n {
            assert(r * n + n == n * n) by (nonlinear_arith)
                requires
                    r == n - 1,
            ;
        }
        lemma_row_col(n, c, r + 1);
    }
}

/// In the order of the spiral walk a board holds each label once, and
/// exchanging two of its labels exchanges them in that order too.
pub proof fn lemma_linearized_swap(s: Seq<usize>, n: int, x: int, y: int)
    requires
        is_board(s, n),
        n >= 1,
        0 <= x < s.len(),
        0 <= y < s.len(),
    ensures
        linearized(swapped(s, x, y), n) == swapped(
            linearized(s, n),
            spiral_rank(n, x),
            spiral_rank(n, y),
        ),
        linearized(s, n)[spiral_rank(n, x)] == s[x],
        linearized(s, n)[spiral_rank(n, y)] == s[y],
        forall|i: int, j: int|
            0 <= i < j < s.len() ==> linearized(s, n)[i] != linearized(s, n)[j],
{
    let l = linearized(s, n);
    let t = swapped(s, x, y);
    let p = spiral_rank(n, x);
    let q = spiral_rank(n, y);
    lemma_index_of_rank(n, x);
    lemma_index_of_rank(n, y);
    assert forall|k: int| 0 <= k < s.len() implies linearized(t, n)[k] == swapped(l, p, q)[k] by {
        lemma_rank_of_index(n, k);
    }
    assert(linearized(t, n) =~= swapped(l, p, q));
    assert forall|i: int, j: int| 0 <= i < j < s.len() implies l[i] != l[j] by {
        lemma_rank_of_index(n, i);
        lemma_rank_of_index(n, j);
        let a = spiral_index(n, i);
        let b = spiral_index(n, j);
        if a < b {
            assert(s[a] != s[b]);
        } else {
            assert(s[b] != s[a]);
        }
    }
}

/// A move keeps the parity of the number of inverted pairs that the board
/// has in the order of the spiral walk.
pub proof fn lemma_move_parity(s: Seq<usize>, n: int, t: Seq<usize>)
    requires
        is_board(s, n),
        n >= 1,
        in_moves(s, n, t),
    ensures
        is_board(t, n),
        inversions(linearized(t, n)) % 2 == inversions(linearized(s, n)) % 2,
{
    lemma_board_blank(s, n);
    let x = blank_pos(s);
    let k = choose|k: int| 0 <= k < moves(s, n).len() && #[trigger] moves(s, n)[k] == t;
    lemma_moves_adjacent(s, n, k);
    let y = choose|y: int| adjacent(n, x, y) && moves(s, n)[k] == swapped(s, x, y);
    lemma_swapped_board(s, n, x, y);
    lemma_adjacent_ranks(n, x, y);
    lemma_linearized_swap(s, n, x, y);
    lemma_linearized_swap(t, n, x, y);
    let l = linearized(s, n);
    let m = linearized(t, n);
    let p = spiral_rank(n, x);
    let q = spiral_rank(n, y);
    if p < q {
        lemma_swap_parity(l, p, q);
    } else {
        assert(m[q] == t[y]);
        assert(swapped(l, p, q) =~= swapped(l, q, p));
        lemma_swap_parity(m, q, p);
        assert(swapped(m, q, p) =~= l);
    }
}

/// In the order of the spiral walk the goal has no inverted pair.
pub proof fn lemma_goal_inversions(n: int)
    requires
        0 <= n,
        n * n <= usize::MAX,
    ensures
        inversions(linearized(goal_state(n), n)) == 0,
{
    let l = linearized(goal_state(n), n);
    assert forall|k: int| 0 <= k < l.len() implies l[k] == goal_label_at(n, k) by {
        lemma_index_parts(n, k);
        lemma_rank_of_index(n, k);
    }
    lemma_sorted_rows(l, n, l.len() as int);
}

proof fn lemma_sorted_with(l: Seq<usize>, n: int, i: int, k: int)
    requires
        l.len() == n * n,
        forall|j: int| 0 <= j < l.len() ==> l[j] == goal_label_at(n, j),
        0 <= i < l.len(),
        k <= l.len(),
    ensures
        inversions_with(l, i, k) == 0,
    decreases k - i,
{
    if k > i + 1 {
        lemma_sorted_with(l, n, i, k - 1);
    }
}

proof fn lemma_sorted_rows(l: Seq<usize>, n: int, k: int)
    requires
        l.len() == n * n,
        forall|j: int| 0 <= j < l.len() ==> l[j] == goal_label_at(n, j),
        0 <= k <= l.len(),
    ensures
        inversions_upto(l, k) == 0,
    decreases k,
{
    if k > 0 {
        lemma_sorted_rows(l, n, k - 1);
        lemma_sorted_with(l, n, k - 1, l.len() as int);
    }
}

proof fn lemma_route_parity(p: Seq<Seq<usize>>, n: int, j: int)
    requires
        n >= 1,
        p.len() >= 1,
        is_board(p[0], n),
        forall|i: int| 0 <= i < p.len() - 1 ==> in_moves(#[trigger] p[i], n, p[i + 1]),
        0 <= j < p.len(),
    ensures
        is_board(p[j], n),
        inversions(linearized(p[j], n)) % 2 == inversions(linearized(p[0], n)) % 2,
    decreases j,
{
    if j > 0 {
        lemma_route_parity(p, n, j - 1);
        assert(in_moves(p[j - 1], n, p[j - 1 + 1]));
        lemma_move_parity(p[j - 1], n, p[j]);
    }
}

/// A board from which moves lead to the goal has an even number of inverted
/// pairs in the order of the spiral walk, and so has every board to which
/// moves lead from the goal.
pub proof fn lemma_reachable_even(s: Seq<usize>, n: int)
    requires
        is_board(s, n),
        n * n <= usize::MAX,
        reachable(s, goal_state(n), n) || reachable(goal_state(n), s, n),
    ensures
        inversions(linearized(s, n)) % 2 == 0,
{
    lemma_goal_inversions(n);
    lemma_goal_board(n);
    if n == 0 {
        assert(s =~= goal_state(n));
    } else if reachable(s, goal_state(n), n) {
        let p = choose|p: Seq<Seq<usize>>| is_route(p, n, s, goal_state(n));
        lemma_route_parity(p, n, p.len() - 1);
    } else {
        let p = choose|p: Seq<Seq<usize>>| is_route(p, n, goal_state(n), s);
        lemma_route_parity(p, n, p.len() - 1);
    }
}

} // verus!
