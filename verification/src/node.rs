//! Boards of the sliding-tile puzzle and the moves between them.

use crate::spiral::{
    lemma_cell_inside, lemma_cell_of_pos, lemma_index_of_rank, lemma_index_parts,
    lemma_rank_of_index, lemma_row_col, spiral_cell, spiral_index, spiral_order, spiral_rank,
};
use std::collections::HashMap;
use vstd::prelude::*;

verus! {

broadcast use vstd::std_specs::hash::group_hash_axioms;

/// Largest side of a grid whose scores are all certain to fit the priority.
pub const MAX_SIDE: usize = 128;

/// The number of positions of the largest grid.
pub const MAX_CELLS: usize = 16384;

/// One arrangement of the grid. `state` lists the labels row by row, `len` is
/// the side of the grid and `score` the priority given to the board while a
/// search holds it. Two boards are the same board when their labels agree;
/// `score` plays no part in that.
#[derive(Debug)]
pub struct Node {
    pub state: Vec<usize>,
    pub len: usize,
    pub score: i32,
}

/// `s` holds `n * n` labels, each of `0..n*n` exactly once.
pub open spec fn is_board(s: Seq<usize>, n: int) -> bool {
    &&& 0 <= n
    &&& s.len() == n * n
    &&& forall|i: int| 0 <= i < s.len() ==> (#[trigger] s[i]) < s.len()
    &&& forall|i: int, j: int| 0 <= i < j < s.len() ==> s[i] != s[j]
    &&& forall|v: int| 0 <= v < s.len() ==> label_occurs(s, v)
}

/// Label `v` stands somewhere in `s`.
pub open spec fn label_occurs(s: Seq<usize>, v: int) -> bool {
    exists|i: int| 0 <= i < s.len() && #[trigger] s[i] == v
}

/// `x` is the first position of `s` that holds the blank.
pub open spec fn is_first_blank(s: Seq<usize>, x: int) -> bool {
    &&& 0 <= x < s.len()
    &&& s[x] == 0
    &&& forall|j: int| 0 <= j < x ==> #[trigger] s[j] != 0
}

/// Some position of `s` holds the blank.
pub open spec fn has_blank(s: Seq<usize>) -> bool {
    exists|x: int| is_first_blank(s, x)
}

/// The position of the blank (the first one, should there be several).
pub open spec fn blank_pos(s: Seq<usize>) -> int {
    choose|x: int| is_first_blank(s, x)
}

/// `s` with the labels at `a` and `b` exchanged.
pub open spec fn swapped(s: Seq<usize>, a: int, b: int) -> Seq<usize> {
    s.update(a, s[b]).update(b, s[a])
}

pub open spec fn can_left(n: int, x: int) -> bool {
    n > 0 && x % n > 0
}

pub open spec fn can_up(n: int, x: int) -> bool {
    x >= n
}

pub open spec fn can_right(n: int, x: int) -> bool {
    n > 0 && (x + 1) % n > 0
}

pub open spec fn can_down(n: int, x: int) -> bool {
    x + n < n * n
}

/// The boards one move away from `s` when the blank is at `x`, in the order
/// left, up, right, down; a direction that leaves the grid gives none.
pub open spec fn moves_from(s: Seq<usize>, n: int, x: int) -> Seq<Seq<usize>> {
    (if can_left(n, x) { seq![swapped(s, x, x - 1)] } else { seq![] })
        + (if can_up(n, x) { seq![swapped(s, x, x - n)] } else { seq![] })
        + (if can_right(n, x) { seq![swapped(s, x, x + 1)] } else { seq![] })
        + (if can_down(n, x) { seq![swapped(s, x, x + n)] } else { seq![] })
}

/// The boards one move away from `s`.
pub open spec fn moves(s: Seq<usize>, n: int) -> Seq<Seq<usize>> {
    moves_from(s, n, blank_pos(s))
}

/// Among the positions of a grid, those next to `x` in its row or column.
pub open spec fn adjacent(n: int, x: int, y: int) -> bool {
    &&& n > 0
    &&& 0 <= x < n * n
    &&& 0 <= y < n * n
    &&& ((y == x - 1 && x % n > 0) || (y == x + 1 && y % n > 0) || y == x - n || y == x + n)
}

/// The first blank is the only position that `is_first_blank` accepts.
pub proof fn lemma_blank_pos(s: Seq<usize>, x: int)
    requires
        is_first_blank(s, x),
    ensures
        has_blank(s),
        blank_pos(s) == x,
{
    let c = blank_pos(s);
    assert(is_first_blank(s, c));
    if c < x {
        assert(s[c] != 0);
    }
    if x < c {
        assert(s[x] != 0);
    }
}

/// Exchanging two labels of a board gives a board.
pub proof fn lemma_swapped_board(s: Seq<usize>, n: int, a: int, b: int)
    requires
        is_board(s, n),
        0 <= a < s.len(),
        0 <= b < s.len(),
    ensures
        is_board(swapped(s, a, b), n),
{
    let t = swapped(s, a, b);
    assert forall|v: int| 0 <= v < t.len() implies label_occurs(t, v) by {
        assert(label_occurs(s, v));
        let i = choose|i: int| 0 <= i < s.len() && #[trigger] s[i] == v;
        let k = if i == a { b } else if i == b { a } else { i };
        assert(t[k] == v);
    }
    assert forall|i: int, j: int| 0 <= i < j < t.len() implies t[i] != t[j] by {
        let i2 = if i == a { b } else if i == b { a } else { i };
        let j2 = if j == a { b } else if j == b { a } else { j };
        assert(t[i] == s[i2] && t[j] == s[j2]);
        if i2 < j2 {
            assert(s[i2] != s[j2]);
        } else {
            assert(s[j2] != s[i2]);
        }
    }
}

/// Every move exchanges the blank with one position next to it.
pub proof fn lemma_moves_adjacent(s: Seq<usize>, n: int, k: int)
    requires
        0 <= n,
        s.len() == n * n,
        has_blank(s),
        0 <= k < moves(s, n).len(),
    ensures
        exists|y: int| adjacent(n, blank_pos(s), y) && moves(s, n)[k] == swapped(s, blank_pos(s), y),
{
    let x = blank_pos(s);
    assert(is_first_blank(s, x));
    lemma_side(n, x);
    let m = moves(s, n);
    let a = if can_left(n, x) { seq![swapped(s, x, x - 1)] } else { seq![] };
    let b = if can_up(n, x) { seq![swapped(s, x, x - n)] } else { seq![] };
    let c = if can_right(n, x) { seq![swapped(s, x, x + 1)] } else { seq![] };
    let d = if can_down(n, x) { seq![swapped(s, x, x + n)] } else { seq![] };
    assert(m == a + b + c + d);
    let l: int = a.len() as int;
    let u: int = b.len() as int;
    let r: int = c.len() as int;
    let y = if k < l {
        x - 1
    } else if k < l + u {
        x - n
    } else if k < l + u + r {
        x + 1
    } else {
        x + n
    };
    assert(adjacent(n, x, y) && m[k] == swapped(s, x, y));
}

/// Facts of a position `x` on a grid of side `n`.
pub proof fn lemma_side(n: int, x: int)
    requires
        0 <= x < n * n,
    ensures
        n != 0,
        n > 0 ==> n <= n * n,
        n > 0 && x % n > 0 ==> x >= 1,
        n > 0 && (x + 1) % n > 0 ==> x + 1 < n * n,
{
    assert(n != 0) by (nonlinear_arith)
        requires
            n * n > 0,
    ;
    if n > 0 {
        assert(n <= n * n) by (nonlinear_arith)
            requires
                n > 0,
        ;
        assert(0int % n == 0) by (nonlinear_arith)
            requires
                n > 0,
        ;
        if x + 1 == n * n {
            assert((n * n) % n == 0) by (nonlinear_arith)
                requires
                    n > 0,
            ;
        }
    }
}


/// The labels of `s` in the order of the spiral walk over a grid of side `n`.
pub open spec fn linearized(s: Seq<usize>, n: int) -> Seq<usize> {
    Seq::new(s.len(), |k: int| s[spiral_index(n, k)])
}

/// Whether `l[i]` and `l[j]` stand in the wrong order: the later one is a
/// tile, not the blank, and the earlier one is larger.
pub open spec fn inverted(l: Seq<usize>, i: int, j: int) -> bool {
    l[j] != 0 && l[i] > l[j]
}

/// The number of `j` with `i < j < k` for which `l[i]` and `l[j]` are inverted.
pub open spec fn inversions_with(l: Seq<usize>, i: int, k: int) -> nat
    decreases k - i,
{
    if k <= i + 1 {
        0
    } else {
        inversions_with(l, i, k - 1) + if inverted(l, i, k - 1) { 1nat } else { 0nat }
    }
}

/// The number of inverted pairs of `l` whose earlier member stands before `k`.
pub open spec fn inversions_upto(l: Seq<usize>, k: int) -> nat
    decreases k,
{
    if k <= 0 {
        0
    } else {
        inversions_upto(l, k - 1) + inversions_with(l, k - 1, l.len() as int)
    }
}

/// The number of inverted pairs of `l`.
pub open spec fn inversions(l: Seq<usize>) -> nat {
    inversions_upto(l, l.len() as int)
}

/// The label that the goal of side `n` holds at the `k`-th position of the
/// spiral walk: 1, 2, 3 and so on, and the blank at the last one.
pub open spec fn goal_label_at(n: int, k: int) -> int {
    if k + 1 < n * n {
        k + 1
    } else {
        0
    }
}

/// The goal of side `n`, row by row.
pub open spec fn goal_state(n: int) -> Seq<usize> {
    Seq::new((n * n) as nat, |i: int| goal_label_at(n, spiral_rank(n, i)) as usize)
}

/// Column and row of each tile in the goal of side `n`; the blank has no entry.
pub open spec fn goal_index(n: int) -> Map<usize, (usize, usize)> {
    Map::new(
        |v: usize| 1 <= v < n * n,
        |v: usize| (spiral_cell(n, 0, v - 1).0 as usize, spiral_cell(n, 0, v - 1).1 as usize),
    )
}

/// `m` gives, for each tile of the board `s` of side `n` and for nothing else,
/// the column and the row at which `s` holds it.
pub open spec fn is_index_of(m: Map<usize, (usize, usize)>, s: Seq<usize>, n: int) -> bool {
    &&& forall|v: usize| m.dom().contains(v) ==> 1 <= v < s.len()
    &&& forall|i: int|
        0 <= i < s.len() && #[trigger] s[i] != 0 ==> m.dom().contains(s[i]) && m[s[i]].0 == i % n
            && m[s[i]].1 == i / n
}

/// The goal holds every label once.
pub proof fn lemma_goal_board(n: int)
    requires
        0 <= n,
        n * n <= usize::MAX,
    ensures
        is_board(goal_state(n), n),
{
    let g = goal_state(n);
    assert forall|i: int| 0 <= i < g.len() implies (#[trigger] g[i]) < g.len() by {
        lemma_index_parts(n, i);
        lemma_index_of_rank(n, i);
    }
    assert forall|i: int, j: int| 0 <= i < j < g.len() implies g[i] != g[j] by {
        lemma_index_parts(n, i);
        lemma_index_of_rank(n, i);
        lemma_index_of_rank(n, j);
    }
    assert forall|v: int| 0 <= v < g.len() implies label_occurs(g, v) by {
        let k = if v == 0 { n * n - 1 } else { v - 1 };
        lemma_index_parts(n, v);
        lemma_rank_of_index(n, k);
        let i = spiral_index(n, k);
        assert(g[i] == v);
    }
}

/// The index of the goal is the index of its board.
pub proof fn lemma_goal_index(n: int)
    requires
        0 <= n,
        n * n <= usize::MAX,
    ensures
        is_index_of(goal_index(n), goal_state(n), n),
{
    let g = goal_state(n);
    let m = goal_index(n);
    assert forall|i: int| 0 <= i < g.len() && #[trigger] g[i] != 0 implies m.dom().contains(g[i])
        && m[g[i]].0 == i % n && m[g[i]].1 == i / n by {
        lemma_index_parts(n, i);
        lemma_index_of_rank(n, i);
        lemma_cell_of_pos(n, 0, i % n, i / n);
    }
}

/// The goal of a grid with a side holds one entry for each label but the
/// blank.
pub proof fn lemma_goal_index_len(n: int)
    requires
        1 <= n,
        n * n <= usize::MAX,
    ensures
        goal_index(n).dom().finite(),
        goal_index(n).dom().len() == n * n - 1,
{
    assert(n * n >= 1) by (nonlinear_arith)
        requires
            1 <= n,
    ;
    lemma_label_range(n * n - 1, n);
}

/// The labels `1..=k` of a grid of side `n` are `k` in number.
proof fn lemma_label_range(k: int, n: int)
    requires
        0 <= k < n * n,
        n * n <= usize::MAX,
    ensures
        Set::new(|v: usize| 1 <= v <= k).finite(),
        Set::new(|v: usize| 1 <= v <= k).len() == k,
        k == n * n - 1 ==> Set::new(|v: usize| 1 <= v <= k) =~= goal_index(n).dom(),
    decreases k,
{
    let s = Set::new(|v: usize| 1 <= v <= k);
    if k == 0 {
        assert(s =~= Set::<usize>::empty());
    } else {
        lemma_label_range(k - 1, n);
        let t = Set::new(|v: usize| 1 <= v <= k - 1);
        assert(s =~= t.insert(k as usize));
    }
}

/// A board with a side holds the blank, at one position only.
pub proof fn lemma_board_blank(s: Seq<usize>, n: int)
    requires
        is_board(s, n),
        n >= 1,
    ensures
        has_blank(s),
        0 <= blank_pos(s) < s.len(),
        s[blank_pos(s)] == 0,
        forall|i: int| 0 <= i < s.len() && s[i] == 0 ==> i == blank_pos(s),
{
    assert(n * n >= 1) by (nonlinear_arith)
        requires
            n >= 1,
    ;
    assert(label_occurs(s, 0));
    let x = choose|i: int| 0 <= i < s.len() && #[trigger] s[i] == 0;
    assert forall|j: int| 0 <= j < x implies #[trigger] s[j] != 0 by {
        assert(s[j] != s[x]);
    }
    lemma_blank_pos(s, x);
    assert forall|i: int| 0 <= i < s.len() && s[i] == 0 implies i == x by {
        if i < x {
            assert(s[i] != s[x]);
        }
        if x < i {
            assert(s[x] != s[i]);
        }
    }
}

/// How many boards are one move away from a board of side 2 or more: two
/// when the blank stands in a corner, three when it stands elsewhere on the
/// rim, four when it stands inside.
pub open spec fn moves_expected(n: int, x: int) -> int {
    2 + (if 0 < x % n < n - 1 { 1int } else { 0int }) + (if 0 < x / n < n - 1 { 1int } else { 0int })
}

/// A board of side 2 or more has two, three or four boards one move away,
/// by the place of its blank; each of them is the board with the blank and
/// one label next to it exchanged, and each is a board.
pub proof fn lemma_neighbour_count(s: Seq<usize>, n: int)
    requires
        is_board(s, n),
        n >= 2,
    ensures
        moves(s, n).len() == moves_expected(n, blank_pos(s)),
        2 <= moves(s, n).len() <= 4,
        forall|k: int|
            0 <= k < moves(s, n).len() ==> is_board(#[trigger] moves(s, n)[k], n) && exists|y: int|
                adjacent(n, blank_pos(s), y) && moves(s, n)[k] == swapped(s, blank_pos(s), y),
{
    lemma_board_blank(s, n);
    let x = blank_pos(s);
    let c = x % n;
    let r = x / n;
    lemma_index_parts(n, x);
    assert(can_up(n, x) == (r > 0)) by {
        if r > 0 {
            assert(r * n >= n) by (nonlinear_arith)
                requires
                    r >= 1,
                    n >= 1,
            ;
        } else {
            assert(r * n == 0) by (nonlinear_arith)
                requires
                    r == 0,
            ;
        }
    }
    assert(can_right(n, x) == (c < n - 1)) by {
        if c < n - 1 {
            lemma_row_col(n, c + 1, r);
        } else {
            assert((r + 1) * n + 0 == r * n + n) by (nonlinear_arith);
            vstd::arithmetic::div_mod::lemma_fundamental_div_mod_converse(x + 1, n, r + 1, 0);
        }
    }
    assert(can_down(n, x) == (r < n - 1)) by {
        assert((r + 1) * n == r * n + n) by (nonlinear_arith);
        if r < n - 1 {
            lemma_row_col(n, c, r + 1);
        } else {
            assert(r * n + n == n * n) by (nonlinear_arith)
                requires
                    r == n - 1,
            ;
        }
    }
    assert forall|k: int| 0 <= k < moves(s, n).len() implies is_board(#[trigger] moves(s, n)[k], n)
        && exists|y: int|
        adjacent(n, blank_pos(s), y) && moves(s, n)[k] == swapped(s, blank_pos(s), y) by {
        lemma_moves_adjacent(s, n, k);
        let y = choose|y: int|
            adjacent(n, blank_pos(s), y) && moves(s, n)[k] == swapped(s, blank_pos(s), y);
        lemma_swapped_board(s, n, x, y);
    }
}

impl Clone for Node {
    fn clone(&self) -> (res: Self)
        ensures
            res.state@ == self.state@,
            res.len == self.len,
            res.score == self.score,
    {
        let state = self.state.clone();
        assert(state@ =~= self.state@);
        Node { state, len: self.len, score: self.score }
    }
}

impl Node {
    /// The board's labels, row by row.
    pub open spec fn view(&self) -> Seq<usize> {
        self.state@
    }

    /// The board is a square grid that holds each label once.
    pub open spec fn valid(&self) -> bool {
        is_board(self.state@, self.len as int)
    }

    /// Whether two boards hold the same labels; the priority is not looked at.
    pub fn same_state(&self, other: &Node) -> (res: bool)
        ensures
            res == (self.state@ == other.state@),
    {
        if self.state.len() != other.state.len() {
            return false;
        }
        let mut i: usize = 0;
        while i < self.state.len()
            invariant
                self.state.len() == other.state.len(),
                i <= self.state.len(),
                forall|j: int| 0 <= j < i ==> self.state@[j] == other.state@[j],
            decreases self.state.len() - i,
        {
            if self.state[i] != other.state[i] {
                return false;
            }
            i += 1;
        }
        assert(self.state@ =~= other.state@);
        true
    }

    /// Whether the board is a square grid of side `len` that holds each label
    /// of `0..len*len` once.
    pub fn is_valid(&self) -> (res: bool)
        ensures
            res == self.valid(),
    {
        let total = self.state.len();
        match self.len.checked_mul(self.len) {
            Some(cells) => {
                if cells != total {
                    return false;
                }
            },
            None => {
                return false;
            },
        }
        let ghost s = self.state@;
        let mut v: usize = 0;
        while v < total
            invariant
                total == s.len(),
                s == self.state@,
                v <= total,
                forall|w: int| 0 <= w < v ==> label_occurs(s, w),
            decreases total - v,
        {
            let mut i: usize = 0;
            let mut at: Option<usize> = None;
            while i < total && at.is_none()
                invariant
                    total == s.len(),
                    s == self.state@,
                    i <= total,
                    at.is_none() ==> forall|j: int| 0 <= j < i ==> #[trigger] s[j] != v,
                    at.is_some() ==> at.unwrap() < total && s[at.unwrap() as int] == v,
                decreases total - i + (if at.is_none() { 1int } else { 0int }),
            {
                if self.state[i] == v {
                    at = Some(i);
                } else {
                    i += 1;
                }
            }
            if at.is_none() {
                assert(!label_occurs(s, v as int));
                return false;
            }
            v += 1;
        }
        let mut a: usize = 0;
        while a < total
            invariant
                total == s.len(),
                s == self.state@,
                a <= total,
                forall|i: int| 0 <= i < a ==> (#[trigger] s[i]) < total,
                forall|i: int, j: int| 0 <= i < j < total && i < a ==> s[i] != s[j],
            decreases total - a,
        {
            if self.state[a] >= total {
                return false;
            }
            let mut b: usize = a + 1;
            while b < total
                invariant
                    total == s.len(),
                    s == self.state@,
                    a < total,
                    a + 1 <= b <= total,
                    forall|j: int| a < j < b ==> s[a as int] != s[j],
                decreases total - b,
            {
                if self.state[a] == self.state[b] {
                    return false;
                }
                b += 1;
            }
            a += 1;
        }
        true
    }

    /// The board with the labels at `sq1` and `sq2` exchanged, priority zero.
    pub fn swap(&self, sq1: usize, sq2: usize) -> (res: Node)
        requires
            sq1 < self.state@.len(),
            sq2 < self.state@.len(),
        ensures
            res.state@ == swapped(self.state@, sq1 as int, sq2 as int),
            res.len == self.len,
            res.score == 0,
    {
        let mut v = self.state.clone();
        assert(v@ =~= self.state@);
        let save = v[sq1];
        let other = v[sq2];
        v.set(sq1, other);
        v.set(sq2, save);
        Node { state: v, len: self.len, score: 0 }
    }

    /// The position of the blank, if the board has one.
    pub fn find_blank(&self) -> (res: Option<usize>)
        ensures
            res.is_some() == has_blank(self.state@),
            res.is_some() ==> res.unwrap() == blank_pos(self.state@),
    {
        let mut i: usize = 0;
        while i < self.state.len()
            invariant
                i <= self.state.len(),
                forall|j: int| 0 <= j < i ==> #[trigger] self.state@[j] != 0,
            decreases self.state.len() - i,
        {
            if self.state[i] == 0 {
                proof {
                    lemma_blank_pos(self.state@, i as int);
                }
                return Some(i);
            }
            i += 1;
        }
        assert(!has_blank(self.state@)) by {
            if has_blank(self.state@) {
                let x = choose|x: int| is_first_blank(self.state@, x);
                assert(self.state@[x] != 0);
            }
        }
        None
    }

    /// The boards one move away: the blank exchanged with the label to its
    /// left, above it, to its right and below it, each where the grid has
    /// such a position, in that order and with priority zero.
    pub fn get_neighbour(&self) -> (res: Vec<Node>)
        requires
            self.state@.len() == self.len * self.len,
            has_blank(self.state@),
        ensures
            res@.len() == moves(self.state@, self.len as int).len(),
            forall|k: int|
                0 <= k < res@.len() ==> {
                    &&& (#[trigger] res@[k]).state@ == moves(self.state@, self.len as int)[k]
                    &&& res@[k].len == self.len
                    &&& res@[k].score == 0
                },
            self.valid() ==> forall|k: int| 0 <= k < res@.len() ==> (#[trigger] res@[k]).valid(),
            self.valid() && self.len >= 2 ==> res@.len() == moves_expected(
                self.len as int,
                blank_pos(self.state@),
            ),
    {
        let mut res: Vec<Node> = Vec::with_capacity(4);
        let size = self.len;
        let x = match self.find_blank() {
            Some(x) => x,
            None => {
                return res;
            },
        };
        let total = self.state.len();
        proof {
            assert(is_first_blank(self.state@, x as int));
            lemma_side(size as int, x as int);
        }
        let ghost s = self.state@;
        let ghost n = size as int;
        let ghost m = moves_from(s, n, x as int);
        if x % size > 0 {
            res.push(self.swap(x, x - 1));
        }
        if x >= size {
            res.push(self.swap(x, x - size));
        }
        if (x + 1) % size > 0 {
            res.push(self.swap(x, x + 1));
        }
        if size < total - x {
            res.push(self.swap(x, x + size));
        }
        proof {
            assert(res@.len() == m.len());
            assert forall|k: int| 0 <= k < res@.len() implies (#[trigger] res@[k]).state@ == m[k]
                && res@[k].len == self.len && res@[k].score == 0 by {}
            if self.valid() && self.len >= 2 {
                lemma_neighbour_count(s, n);
            }
            if self.valid() {
                assert forall|k: int| 0 <= k < res@.len() implies (#[trigger] res@[k]).valid() by {
                    lemma_moves_adjacent(s, n, k);
                    let y = choose|y: int|
                        adjacent(n, blank_pos(s), y) && moves(s, n)[k] == swapped(s, blank_pos(s), y);
                    lemma_swapped_board(s, n, x as int, y);
                }
            }
        }
        res
    }

    /// The labels in the order of the spiral walk.
    pub fn get_linear(&self) -> (res: Vec<usize>)
        requires
            self.state@.len() == self.len * self.len,
        ensures
            res@ == linearized(self.state@, self.len as int),
    {
        let total = self.state.len();
        let order = spiral_order(self.len);
        let mut linear: Vec<usize> = Vec::new();
        let mut k: usize = 0;
        while k < order.len()
            invariant
                k <= order@.len(),
                order@.len() == self.state@.len(),
                self.state@.len() == self.len * self.len,
                linear@.len() == k,
                forall|j: int|
                    0 <= j < order@.len() ==> #[trigger] order@[j] == spiral_index(self.len as int, j),
                forall|j: int|
                    #![trigger spiral_index(self.len as int, j)]
                    0 <= j < k ==> 0 <= spiral_index(self.len as int, j) < self.state@.len()
                        && linear@[j] == self.state@[spiral_index(self.len as int, j)],
            decreases order@.len() - k,
        {
            proof {
                lemma_index_parts(self.len as int, k as int);
                lemma_rank_of_index(self.len as int, k as int);
            }
            linear.push(self.state[order[k]]);
            k += 1;
        }
        assert(linear@ =~= linearized(self.state@, self.len as int));
        linear
    }

    /// Whether the number of inverted pairs among the labels, taken in the
    /// order of the spiral walk, is even. It is for every board from which
    /// moves lead to the goal.
    pub fn is_solvable(&self) -> (res: bool)
        requires
            self.state@.len() == self.len * self.len,
        ensures
            res == (inversions(linearized(self.state@, self.len as int)) % 2 == 0),
            self.valid() && crate::astar::reachable(
                self.state@,
                goal_state(self.len as int),
                self.len as int,
            ) ==> res,
    {
        let total = self.state.len();
        proof {
            if self.valid() && crate::astar::reachable(
                self.state@,
                goal_state(self.len as int),
                self.len as int,
            ) {
                crate::parity::lemma_reachable_even(self.state@, self.len as int);
            }
        }
        let linear = self.get_linear();
        let mut even = true;
        let mut i: usize = 0;
        while i < total
            invariant
                total == linear@.len(),
                i <= linear@.len(),
                even == (inversions_upto(linear@, i as int) % 2 == 0),
            decreases total - i,
        {
            let el = linear[i];
            let mut j: usize = i + 1;
            let mut row_even = true;
            while j < total
                invariant
                    total == linear@.len(),
                    i < linear@.len(),
                    i + 1 <= j <= linear@.len(),
                    el == linear@[i as int],
                    row_even == (inversions_with(linear@, i as int, j as int) % 2 == 0),
                decreases total - j,
            {
                let x = linear[j];
                if x != 0 && el > x {
                    row_even = !row_even;
                }
                j += 1;
            }
            even = (even == row_even);
            i += 1;
        }
        even
    }
}

/// The board to reach, with the column and row of each of its tiles.
#[derive(Debug)]
pub struct Goal {
    pub node: Node,
    pub map: HashMap<usize, (usize, usize)>,
}

impl Clone for Goal {
    fn clone(&self) -> (res: Self)
        ensures
            res.node.state@ == self.node.state@,
            res.node.len == self.node.len,
            res.node.score == self.node.score,
            res.map@ == self.map@,
    {
        Goal { node: self.node.clone(), map: self.map.clone() }
    }
}

impl Goal {
    /// The board is a board and the index is the index of its tiles.
    pub open spec fn wf(&self) -> bool {
        &&& self.node.valid()
        &&& is_index_of(self.map@, self.node.state@, self.node.len as int)
    }

    /// The goal of a grid of side `size`: the labels 1, 2, 3 and so on laid
    /// out along the spiral walk, the blank at its end, and the column and
    /// row of each label but the blank. Sides 0 and 1 give the empty board
    /// and the board of the blank alone, both with an empty index.
    pub fn new(size: usize) -> (res: Goal)
        requires
            size * size <= usize::MAX,
        ensures
            res.node.len == size,
            res.node.score == 0,
            res.node.state@ == goal_state(size as int),
            res.map@ == goal_index(size as int),
            res.wf(),
            size >= 1 ==> res.map@.len() == size * size - 1,
    {
        let order = spiral_order(size);
        let total = order.len();
        let ghost n = size as int;
        let mut tab: Vec<usize> = Vec::new();
        let mut f: usize = 0;
        while f < total
            invariant
                f <= total,
                tab@.len() == f,
            decreases total - f,
        {
            tab.push(0);
            f += 1;
        }
        let mut map: HashMap<usize, (usize, usize)> = HashMap::new();
        let mut k: usize = 0;
        while k < total
            invariant
                k <= total,
                n == size,
                total == n * n,
                order@.len() == total,
                tab@.len() == total,
                forall|j: int| 0 <= j < total ==> #[trigger] order@[j] == spiral_index(n, j),
                forall|j: int|
                    #![trigger spiral_index(n, j)]
                    0 <= j < k ==> 0 <= spiral_index(n, j) < total && tab@[spiral_index(n, j)]
                        == goal_label_at(n, j),
                map@ =~= Map::new(
                    |v: usize| 1 <= v <= k && v < total,
                    |v: usize| (spiral_cell(n, 0, v - 1).0 as usize, spiral_cell(n, 0, v - 1).1 as usize),
                ),
            decreases total - k,
        {
            let idx = order[k];
            proof {
                lemma_rank_of_index(n, k as int);
                lemma_cell_inside(n, 0, k as int);
                lemma_row_col(n, spiral_cell(n, 0, k as int).0, spiral_cell(n, 0, k as int).1);
                assert forall|j: int| 0 <= j < k implies 0 <= #[trigger] spiral_index(n, j) < total
                    && spiral_index(n, j) != idx by {
                    lemma_rank_of_index(n, j);
                }
            }
            let label: usize = k + 1;
            if label < total {
                map.insert(label, (idx % size, idx / size));
                tab.set(idx, label);
            } else {
                tab.set(idx, 0);
            }
            k += 1;
        }
        proof {
            assert(map@ =~= goal_index(n));
            assert forall|i: int| 0 <= i < total implies tab@[i] == goal_state(n)[i] by {
                lemma_index_parts(n, i);
                lemma_index_of_rank(n, i);
            }
            assert(tab@ =~= goal_state(n));
            lemma_goal_board(n);
            lemma_goal_index(n);
            if size >= 1 {
                lemma_goal_index_len(n);
            }
        }
        Goal { node: Node { state: tab, len: size, score: 0 }, map }
    }
}

} // verus!
