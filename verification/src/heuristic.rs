//! Estimates of the distance between a board and the goal.

use crate::node::{is_board, is_index_of, label_occurs, Goal, Node, MAX_CELLS, MAX_SIDE};
use crate::spiral::lemma_index_parts;
use vstd::prelude::*;
use vstd::string::StrSliceExecFns;

verus! {

broadcast use vstd::std_specs::hash::group_hash_axioms;

/// The estimates that the search can be run with.
#[derive(Clone, Copy, Debug, PartialEq, Eq, Structural)]
pub enum Heuristic {
    Manhattan,
    Linear,
    Xy,
}

/// The distance between two coordinates.
pub open spec fn gap(a: int, b: int) -> int {
    if a >= b {
        a - b
    } else {
        b - a
    }
}

/// What the tile at position `i` adds to the Manhattan score: the distance
/// between its column and its column in the goal, plus the same for its
/// row. The blank adds nothing.
pub open spec fn manhattan_tile(s: Seq<usize>, n: int, m: Map<usize, (usize, usize)>, i: int) -> int {
    if s[i] != 0 && m.dom().contains(s[i]) {
        gap(m[s[i]].0 as int, i % n) + gap(m[s[i]].1 as int, i / n)
    } else {
        0
    }
}

/// The Manhattan score of the positions before `k`.
pub open spec fn manhattan_upto(s: Seq<usize>, n: int, m: Map<usize, (usize, usize)>, k: int) -> int
    decreases k,
{
    if k <= 0 {
        0
    } else {
        manhattan_upto(s, n, m, k - 1) + manhattan_tile(s, n, m, k - 1)
    }
}

/// The Manhattan score of board `s` of side `n` against the goal index `m`.
pub open spec fn manhattan_score(s: Seq<usize>, n: int, m: Map<usize, (usize, usize)>) -> int {
    manhattan_upto(s, n, m, s.len() as int)
}

/// The tiles at `a` and `b` stand in one row, which is the goal row of both,
/// and the goal has them in the other order.
pub open spec fn row_conflict(s: Seq<usize>, n: int, m: Map<usize, (usize, usize)>, a: int, b: int) -> bool {
    &&& a / n == b / n
    &&& m.dom().contains(s[a])
    &&& m.dom().contains(s[b])
    &&& m[s[a]].1 == a / n
    &&& m[s[b]].1 == a / n
    &&& m[s[a]].0 > m[s[b]].0
}

/// The tiles at `a` and `b` stand in one column, which is the goal column of
/// both, and the goal has them in the other order.
pub open spec fn col_conflict(s: Seq<usize>, n: int, m: Map<usize, (usize, usize)>, a: int, b: int) -> bool {
    &&& a % n == b % n
    &&& m.dom().contains(s[a])
    &&& m.dom().contains(s[b])
    &&& m[s[a]].0 == a % n
    &&& m[s[b]].0 == a % n
    &&& m[s[a]].1 > m[s[b]].1
}

/// The number of positions `b` with `a < b < k` whose tile is in conflict
/// with the tile at `a`.
pub open spec fn conflicts_with(s: Seq<usize>, n: int, m: Map<usize, (usize, usize)>, a: int, k: int) -> int
    decreases k - a,
{
    if k <= a + 1 {
        0
    } else {
        conflicts_with(s, n, m, a, k - 1) + if row_conflict(s, n, m, a, k - 1) || col_conflict(
            s,
            n,
            m,
            a,
            k - 1,
        ) {
            1int
        } else {
            0int
        }
    }
}

/// The number of pairs in conflict whose earlier position is before `k`.
pub open spec fn conflicts_upto(s: Seq<usize>, n: int, m: Map<usize, (usize, usize)>, k: int) -> int
    decreases k,
{
    if k <= 0 {
        0
    } else {
        conflicts_upto(s, n, m, k - 1) + conflicts_with(s, n, m, k - 1, s.len() as int)
    }
}

/// The Linear-Conflict score: the Manhattan score and two more for each pair
/// of tiles in conflict.
pub open spec fn linear_score(s: Seq<usize>, n: int, m: Map<usize, (usize, usize)>) -> int {
    manhattan_score(s, n, m) + 2 * conflicts_upto(s, n, m, s.len() as int)
}

/// What the tile at position `i` adds to the directional score: its column
/// distance if it stands in its goal row, its row distance if it stands in
/// its goal column. The blank adds nothing.
pub open spec fn xy_tile(s: Seq<usize>, n: int, m: Map<usize, (usize, usize)>, i: int) -> int {
    if s[i] != 0 && m.dom().contains(s[i]) {
        (if m[s[i]].1 == i / n {
            gap(m[s[i]].0 as int, i % n)
        } else {
            0
        }) + (if m[s[i]].0 == i % n {
            gap(m[s[i]].1 as int, i / n)
        } else {
            0
        })
    } else {
        0
    }
}

/// The directional score of the positions before `k`.
pub open spec fn xy_upto(s: Seq<usize>, n: int, m: Map<usize, (usize, usize)>, k: int) -> int
    decreases k,
{
    if k <= 0 {
        0
    } else {
        xy_upto(s, n, m, k - 1) + xy_tile(s, n, m, k - 1)
    }
}

/// The directional score of board `s` of side `n` against the goal index `m`.
pub open spec fn xy_score(s: Seq<usize>, n: int, m: Map<usize, (usize, usize)>) -> int {
    xy_upto(s, n, m, s.len() as int)
}

/// The lower-case form of an ASCII capital; any other character itself.
pub open spec fn ascii_lower(c: char) -> char {
    if 'A' <= c && c <= 'Z' {
        ((c as u8) + 32) as u8 as char
    } else {
        c
    }
}

/// `s` with its ASCII capitals in lower case.
pub open spec fn lowered(s: Seq<char>) -> Seq<char> {
    Seq::new(s.len(), |i: int| ascii_lower(s[i]))
}

/// A board and a goal that a score can be taken of: both of one side, which
/// is at most `MAX_SIDE`, the board with a label at each position.
pub open spec fn scorable(node: Node, goal: Goal) -> bool {
    &&& goal.wf()
    &&& node.len == goal.node.len
    &&& node.len <= MAX_SIDE
    &&& node.state@.len() == node.len * node.len
}

/// The index of a goal holds columns and rows of the grid only.
pub proof fn lemma_index_inside(m: Map<usize, (usize, usize)>, s: Seq<usize>, n: int, v: usize)
    requires
        is_board(s, n),
        is_index_of(m, s, n),
        m.dom().contains(v),
    ensures
        0 <= m[v].0 < n,
        0 <= m[v].1 < n,
        n * n == s.len(),
{
    assert(label_occurs(s, v as int));
    let i = choose|i: int| 0 <= i < s.len() && #[trigger] s[i] == v as int;
    assert(s[i] != 0);
    lemma_index_parts(n, i);
}

/// Grids of a side up to `MAX_SIDE` have at most `MAX_CELLS` positions.
pub proof fn lemma_cells_bound(n: int)
    requires
        0 <= n <= MAX_SIDE,
    ensures
        n * n <= MAX_CELLS,
{
    assert(n * n <= 16384) by (nonlinear_arith)
        requires
            0 <= n <= 128,
    ;
}

/// No tile of a board is away from its place in the board's own index.
proof fn lemma_tiles_in_place(s: Seq<usize>, n: int, m: Map<usize, (usize, usize)>, k: int)
    requires
        is_board(s, n),
        is_index_of(m, s, n),
        0 <= k <= s.len(),
    ensures
        manhattan_upto(s, n, m, k) == 0,
        xy_upto(s, n, m, k) == 0,
    decreases k,
{
    if k > 0 {
        lemma_tiles_in_place(s, n, m, k - 1);
    }
}

/// No tile of a board is in conflict with a later one against the board's
/// own index.
proof fn lemma_no_conflict_with(s: Seq<usize>, n: int, m: Map<usize, (usize, usize)>, a: int, k: int)
    requires
        is_board(s, n),
        is_index_of(m, s, n),
        0 <= a < s.len(),
        k <= s.len(),
    ensures
        conflicts_with(s, n, m, a, k) == 0,
    decreases k - a,
{
    if k > a + 1 {
        lemma_no_conflict_with(s, n, m, a, k - 1);
        let b = k - 1;
        lemma_index_parts(n, a);
        lemma_index_parts(n, b);
        if col_conflict(s, n, m, a, b) {
            assert(s[a] != 0 && s[b] != 0);
            assert((a / n) * n >= (b / n) * n + n) by (nonlinear_arith)
                requires
                    a / n >= b / n + 1,
                    n > 0,
            ;
        }
        if row_conflict(s, n, m, a, b) {
            assert(s[a] != 0 && s[b] != 0);
        }
    }
}

proof fn lemma_no_conflict_upto(s: Seq<usize>, n: int, m: Map<usize, (usize, usize)>, k: int)
    requires
        is_board(s, n),
        is_index_of(m, s, n),
        0 <= k <= s.len(),
    ensures
        conflicts_upto(s, n, m, k) == 0,
    decreases k,
{
    if k > 0 {
        lemma_no_conflict_upto(s, n, m, k - 1);
        lemma_no_conflict_with(s, n, m, k - 1, s.len() as int);
    }
}

/// The board of a goal scores zero against that goal under each estimate.
pub proof fn lemma_goal_scores_zero(goal: Goal, h: Heuristic)
    requires
        goal.wf(),
    ensures
        h.score(goal.node.state@, goal.node.len as int, goal.map@) == 0,
        manhattan_score(goal.node.state@, goal.node.len as int, goal.map@) == 0,
        linear_score(goal.node.state@, goal.node.len as int, goal.map@) == 0,
{
    let s = goal.node.state@;
    let n = goal.node.len as int;
    lemma_tiles_in_place(s, n, goal.map@, s.len() as int);
    lemma_no_conflict_upto(s, n, goal.map@, s.len() as int);
}

fn lower_char(c: char) -> (res: char)
    ensures
        res == ascii_lower(c),
{
    if 'A' <= c && c <= 'Z' {
        let b: u8 = c as u8;
        (b + 32) as char
    } else {
        c
    }
}

/// Whether `s`, its ASCII capitals taken as lower case, reads `name`.
fn reads_as(s: &str, name: &str) -> (res: bool)
    ensures
        res == (lowered(s@) == name@),
{
    let n = s.unicode_len();
    if n != name.unicode_len() {
        return false;
    }
    let mut i: usize = 0;
    while i < n
        invariant
            i <= n,
            n == s@.len(),
            n == name@.len(),
            forall|j: int| 0 <= j < i ==> ascii_lower(s@[j]) == name@[j],
        decreases n - i,
    {
        if lower_char(s.get_char(i)) != name.get_char(i) {
            assert(lowered(s@)[i as int] != name@[i as int]);
            return false;
        }
        i += 1;
    }
    assert(lowered(s@) =~= name@);
    true
}

fn gap_of(a: usize, b: usize) -> (res: i32)
    requires
        a <= MAX_SIDE,
        b <= MAX_SIDE,
    ensures
        res == gap(a as int, b as int),
        0 <= res <= MAX_SIDE,
{
    if a >= b {
        (a - b) as i32
    } else {
        (b - a) as i32
    }
}

/// Column and row of label `v` in the goal, if the goal's index has it.
fn place_of(goal: &Goal, v: usize) -> (res: Option<(usize, usize)>)
    requires
        goal.wf(),
    ensures
        res.is_some() == goal.map@.dom().contains(v),
        res.is_some() ==> res.unwrap() == goal.map@[v] && res.unwrap().0 < goal.node.len
            && res.unwrap().1 < goal.node.len,
{
    match goal.map.get(&v) {
        Some(p) => {
            proof {
                lemma_index_inside(goal.map@, goal.node.state@, goal.node.len as int, v);
            }
            Some((p.0, p.1))
        },
        None => None,
    }
}

impl Heuristic {
    /// The score that this estimate gives board `s` of side `n` against the
    /// goal index `m`.
    pub open spec fn score(self, s: Seq<usize>, n: int, m: Map<usize, (usize, usize)>) -> int {
        match self {
            Heuristic::Manhattan => manhattan_score(s, n, m),
            Heuristic::Linear => linear_score(s, n, m),
            Heuristic::Xy => xy_score(s, n, m),
        }
    }

    /// The sum, over the tiles, of the distance from each to its place in the
    /// goal, counted in columns and rows.
    pub fn manhattan(node: &Node, goal: &Goal) -> (res: i32)
        requires
            scorable(*node, *goal),
        ensures
            res == manhattan_score(node.state@, node.len as int, goal.map@),
            0 <= res <= 256 * MAX_CELLS,
    {
        let n = node.len;
        let total = node.state.len();
        proof {
            lemma_cells_bound(n as int);
        }
        let mut score: i32 = 0;
        let mut i: usize = 0;
        while i < total
            invariant
                scorable(*node, *goal),
                n == node.len,
                total == node.state@.len(),
                total <= MAX_CELLS,
                i <= total,
                score == manhattan_upto(node.state@, n as int, goal.map@, i as int),
                0 <= score <= 256 * i,
            decreases total - i,
        {
            let square = node.state[i];
            proof {
                lemma_index_parts(n as int, i as int);
            }
            if square != 0 {
                match place_of(goal, square) {
                    Some((x, y)) => {
                        score = score + gap_of(x, i % n) + gap_of(y, i / n);
                    },
                    None => {},
                }
            }
            i += 1;
        }
        score
    }

    /// The Manhattan score and two more for each pair of tiles that stand in
    /// their common goal row, or in their common goal column, in the order
    /// opposite to the goal's.
    pub fn linear(node: &Node, goal: &Goal) -> (res: i32)
        requires
            scorable(*node, *goal),
        ensures
            res == linear_score(node.state@, node.len as int, goal.map@),
            0 <= res,
    {
        let n = node.len;
        let total = node.state.len();
        proof {
            lemma_cells_bound(n as int);
        }
        let base = Heuristic::manhattan(node, goal);
        let mut pairs: i32 = 0;
        let mut a: usize = 0;
        while a < total
            invariant
                scorable(*node, *goal),
                n == node.len,
                total == node.state@.len(),
                total <= MAX_CELLS,
                a <= total,
                pairs == conflicts_upto(node.state@, n as int, goal.map@, a as int),
                0 <= pairs <= 16384 * a,
            decreases total - a,
        {
            let mut found: i32 = 0;
            let mut b: usize = a + 1;
            proof {
                lemma_index_parts(n as int, a as int);
            }
            let first = place_of(goal, node.state[a]);
            while b < total
                invariant
                    scorable(*node, *goal),
                    n == node.len,
                    n > 0,
                    total == node.state@.len(),
                    total <= MAX_CELLS,
                    a < total,
                    a + 1 <= b <= total,
                    first.is_some() == goal.map@.dom().contains(node.state@[a as int]),
                    first.is_some() ==> first.unwrap() == goal.map@[node.state@[a as int]],
                    found == conflicts_with(node.state@, n as int, goal.map@, a as int, b as int),
                    0 <= found <= b - a - 1,
                decreases total - b,
            {
                match (first, place_of(goal, node.state[b])) {
                    (Some((x, y)), Some((x2, y2))) => {
                        let in_row = a / n == b / n && y == a / n && y2 == a / n && x > x2;
                        let in_col = a % n == b % n && x == a % n && x2 == a % n && y > y2;
                        if in_row || in_col {
                            found = found + 1;
                        }
                    },
                    _ => {},
                }
                b += 1;
            }
            pairs = pairs + found;
            a += 1;
        }
        base + 2 * pairs
    }

    /// The sum, over the tiles, of the column distance of each tile that
    /// stands in its goal row and of the row distance of each tile that
    /// stands in its goal column.
    pub fn xy(node: &Node, goal: &Goal) -> (res: i32)
        requires
            scorable(*node, *goal),
        ensures
            res == xy_score(node.state@, node.len as int, goal.map@),
            0 <= res <= 256 * MAX_CELLS,
    {
        let n = node.len;
        let total = node.state.len();
        proof {
            lemma_cells_bound(n as int);
        }
        let mut score: i32 = 0;
        let mut i: usize = 0;
        while i < total
            invariant
                scorable(*node, *goal),
                n == node.len,
                total == node.state@.len(),
                total <= MAX_CELLS,
                i <= total,
                score == xy_upto(node.state@, n as int, goal.map@, i as int),
                0 <= score <= 256 * i,
            decreases total - i,
        {
            let square = node.state[i];
            proof {
                lemma_index_parts(n as int, i as int);
            }
            if square != 0 {
                match place_of(goal, square) {
                    Some((x, y)) => {
                        if y == i / n {
                            score = score + gap_of(x, i % n);
                        }
                        if x == i % n {
                            score = score + gap_of(y, i / n);
                        }
                    },
                    None => {},
                }
            }
            i += 1;
        }
        score
    }

    /// The estimate of a name, whatever the case of its letters:
    /// `manhattan`, `linear` or `xy`. Any other name has none.
    pub fn str_to_heuristic(s: &str) -> (res: Option<Heuristic>)
        ensures
            lowered(s@) == "manhattan"@ ==> res == Some(Heuristic::Manhattan),
            lowered(s@) == "linear"@ ==> res == Some(Heuristic::Linear),
            lowered(s@) == "xy"@ ==> res == Some(Heuristic::Xy),
            lowered(s@) != "manhattan"@ && lowered(s@) != "linear"@ && lowered(s@) != "xy"@ ==> res
                is None,
    {
        proof {
            reveal_strlit("manhattan");
            reveal_strlit("linear");
            reveal_strlit("xy");
            assert("manhattan"@.len() == 9 && "linear"@.len() == 6 && "xy"@.len() == 2);
        }
        if reads_as(s, "manhattan") {
            Some(Heuristic::Manhattan)
        } else if reads_as(s, "linear") {
            Some(Heuristic::Linear)
        } else if reads_as(s, "xy") {
            Some(Heuristic::Xy)
        } else {
            None
        }
    }

    /// The score of `node` against `goal` under this estimate.
    pub fn get_score(&self, node: &Node, goal: &Goal) -> (res: i32)
        requires
            scorable(*node, *goal),
        ensures
            res == self.score(node.state@, node.len as int, goal.map@),
            0 <= res,
    {
        match *self {
            Heuristic::Manhattan => Heuristic::manhattan(node, goal),
            Heuristic::Linear => Heuristic::linear(node, goal),
            Heuristic::Xy => Heuristic::xy(node, goal),
        }
    }
}

} // verus!
