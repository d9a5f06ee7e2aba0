//! The spiral walk over a square grid: along the top row from the left, down
//! the right column, back along the bottom row, up the left column, and so on
//! inwards until every position has been visited once.

use vstd::prelude::*;

verus! {

/// Column and row of the `k`-th position on the rim of the square of side
/// `n >= 2` whose top left corner is `(off, off)`, walking clockwise from
/// that corner. The rim has `4 * n - 4` positions.
pub open spec fn ring_cell(n: int, off: int, k: int) -> (int, int) {
    if k < n {
        (off + k, off)
    } else if k < 2 * n - 1 {
        (off + n - 1, off + 1 + (k - n))
    } else if k < 3 * n - 2 {
        (off + n - 2 - (k - (2 * n - 1)), off + n - 1)
    } else {
        (off, off + n - 2 - (k - (3 * n - 2)))
    }
}

/// Column and row of the `k`-th position of the spiral walk over the square
/// of side `n` whose top left corner is `(off, off)`.
pub open spec fn spiral_cell(n: int, off: int, k: int) -> (int, int)
    decreases n,
{
    if n <= 1 {
        (off, off)
    } else if k < 4 * n - 4 {
        ring_cell(n, off, k)
    } else {
        spiral_cell(n - 2, off + 1, k - (4 * n - 4))
    }
}

/// The place that the spiral walk over the square of side `n` at `(off, off)`
/// gives to column `c`, row `r`: the inverse of `spiral_cell`.
pub open spec fn spiral_pos(n: int, off: int, c: int, r: int) -> int
    decreases n,
{
    if n <= 1 {
        0
    } else if r == off {
        c - off
    } else if c == off + n - 1 {
        n + (r - off - 1)
    } else if r == off + n - 1 {
        (2 * n - 1) + (off + n - 2 - c)
    } else if c == off {
        (3 * n - 2) + (off + n - 2 - r)
    } else {
        (4 * n - 4) + spiral_pos(n - 2, off + 1, c, r)
    }
}

/// The row-major index of the `k`-th position of the spiral walk over a grid
/// of side `len`.
pub open spec fn spiral_index(len: int, k: int) -> int {
    spiral_cell(len, 0, k).1 * len + spiral_cell(len, 0, k).0
}

/// The place of row-major index `i` in the spiral walk over a grid of side
/// `len`.
pub open spec fn spiral_rank(len: int, i: int) -> int {
    spiral_pos(len, 0, i % len, i / len)
}

pub proof fn lemma_square_step(n: int)
    ensures
        n * n - (4 * n - 4) == (n - 2) * (n - 2),
{
    assert(n * n - (4 * n - 4) == (n - 2) * (n - 2)) by (nonlinear_arith);
}

/// The walk stays inside its square.
pub proof fn lemma_cell_inside(n: int, off: int, k: int)
    requires
        n >= 1,
        0 <= k < n * n,
    ensures
        off <= spiral_cell(n, off, k).0 < off + n,
        off <= spiral_cell(n, off, k).1 < off + n,
    decreases n,
{
    if n >= 2 && k >= 4 * n - 4 {
        lemma_square_step(n);
        assert(n - 2 >= 1) by {
            if n == 2 {
                assert(n * n == 4) by (nonlinear_arith)
                    requires
                        n == 2,
                ;
            }
        }
        lemma_cell_inside(n - 2, off + 1, k - (4 * n - 4));
    }
}

/// `spiral_pos` finds the place of every position of the walk, so the walk
/// visits no position twice.
pub proof fn lemma_pos_of_cell(n: int, off: int, k: int)
    requires
        n >= 1,
        0 <= k < n * n,
    ensures
        spiral_pos(n, off, spiral_cell(n, off, k).0, spiral_cell(n, off, k).1) == k,
    decreases n,
{
    if n == 1 {
        assert(n * n == 1) by (nonlinear_arith)
            requires
                n == 1,
        ;
    } else if k >= 4 * n - 4 {
        lemma_square_step(n);
        assert(n - 2 >= 1) by {
            if n == 2 {
                assert(n * n == 4) by (nonlinear_arith)
                    requires
                        n == 2,
                ;
            }
        }
        lemma_cell_inside(n - 2, off + 1, k - (4 * n - 4));
        lemma_pos_of_cell(n - 2, off + 1, k - (4 * n - 4));
    }
}

/// Every position of the square has a place in the walk, and the walk is
/// there at that place.
pub proof fn lemma_cell_of_pos(n: int, off: int, c: int, r: int)
    requires
        n >= 1,
        off <= c < off + n,
        off <= r < off + n,
    ensures
        0 <= spiral_pos(n, off, c, r) < n * n,
        spiral_cell(n, off, spiral_pos(n, off, c, r)) == (c, r),
    decreases n,
{
    lemma_square_step(n);
    if n == 1 {
        assert(n * n == 1) by (nonlinear_arith)
            requires
                n == 1,
        ;
    } else if r == off || c == off + n - 1 || r == off + n - 1 || c == off {
        assert((n - 2) * (n - 2) >= 0) by (nonlinear_arith);
    } else {
        lemma_cell_of_pos(n - 2, off + 1, c, r);
    }
}

/// After `lap` rounds the walk over the grid goes on as the walk over the
/// square that is left.
pub proof fn lemma_spiral_lap(len: int, lap: int, k: int)
    requires
        0 <= lap,
        len - 2 * lap >= 1,
        0 <= k < (len - 2 * lap) * (len - 2 * lap),
    ensures
        spiral_cell(len, 0, len * len - (len - 2 * lap) * (len - 2 * lap) + k) == spiral_cell(
            len - 2 * lap,
            lap,
            k,
        ),
    decreases lap,
{
    if lap > 0 {
        let n = len - 2 * lap;
        let m = n + 2;
        lemma_square_step(m);
        let k2 = 4 * m - 4 + k;
        assert(m == len - 2 * (lap - 1));
        lemma_spiral_lap(len, lap - 1, k2);
    }
}

/// Row and column of a row-major index.
pub proof fn lemma_row_col(len: int, c: int, r: int)
    requires
        0 <= c < len,
        0 <= r < len,
    ensures
        0 <= r * len + c < len * len,
        (r * len + c) % len == c,
        (r * len + c) / len == r,
{
    vstd::arithmetic::div_mod::lemma_fundamental_div_mod_converse(r * len + c, len, r, c);
    assert(r * len + c < len * len) by (nonlinear_arith)
        requires
            0 <= c < len,
            0 <= r < len,
    ;
    assert(0 <= r * len) by (nonlinear_arith)
        requires
            0 <= r,
            0 < len,
    ;
}

/// A row-major index is made of its row and its column.
pub proof fn lemma_index_parts(len: int, i: int)
    requires
        0 <= len,
        0 <= i < len * len,
    ensures
        len > 0,
        0 <= i % len < len,
        0 <= i / len < len,
        (i / len) * len + i % len == i,
{
    assert(len != 0) by (nonlinear_arith)
        requires
            len * len > 0,
    ;
    vstd::arithmetic::div_mod::lemma_fundamental_div_mod(i, len);
    vstd::arithmetic::div_mod::lemma_mod_bound(i, len);
    assert(0 <= i / len < len) by (nonlinear_arith)
        requires
            0 <= i < len * len,
            len > 0,
            i == len * (i / len) + i % len,
            0 <= i % len < len,
    ;
    assert((i / len) * len == len * (i / len)) by (nonlinear_arith);
}

/// `spiral_index` and `spiral_rank` are inverse to each other on the grid.
pub proof fn lemma_rank_of_index(len: int, k: int)
    requires
        len >= 1,
        0 <= k < len * len,
    ensures
        0 <= spiral_index(len, k) < len * len,
        spiral_rank(len, spiral_index(len, k)) == k,
{
    lemma_cell_inside(len, 0, k);
    lemma_pos_of_cell(len, 0, k);
    let (c, r) = spiral_cell(len, 0, k);
    lemma_row_col(len, c, r);
}

pub proof fn lemma_index_of_rank(len: int, i: int)
    requires
        len >= 1,
        0 <= i < len * len,
    ensures
        0 <= spiral_rank(len, i) < len * len,
        spiral_index(len, spiral_rank(len, i)) == i,
{
    lemma_index_parts(len, i);
    lemma_cell_of_pos(len, 0, i % len, i / len);
}

/// Column and row of the `k`-th position on the rim of a square.
fn ring_at(n: usize, off: usize, k: usize) -> (res: (usize, usize))
    requires
        n >= 2,
        off + n <= usize::MAX,
        4 * n <= usize::MAX,
        k < 4 * n - 4,
    ensures
        (res.0 as int, res.1 as int) == ring_cell(n as int, off as int, k as int),
        off <= res.0 < off + n,
        off <= res.1 < off + n,
{
    if k < n {
        (off + k, off)
    } else if k < 2 * n - 1 {
        (off + n - 1, off + 1 + (k - n))
    } else if k < 3 * n - 2 {
        (off + n - 2 - (k - (2 * n - 1)), off + n - 1)
    } else {
        (off, off + n - 2 - (k - (3 * n - 2)))
    }
}

/// The row-major indices of a grid of side `size` in the order of the spiral
/// walk. A grid of side 0 has none, one of side 1 the single index 0.
pub fn spiral_order(size: usize) -> (res: Vec<usize>)
    requires
        size * size <= usize::MAX,
    ensures
        res@.len() == size * size,
        forall|k: int| 0 <= k < res@.len() ==> #[trigger] res@[k] == spiral_index(size as int, k),
{
    let mut out: Vec<usize> = Vec::new();
    let mut lap: usize = 0;
    let mut n: usize = size;
    assert(4 * size <= usize::MAX) by (nonlinear_arith)
        requires
            size * size <= usize::MAX,
    ;
    while n >= 2
        invariant
            size * size <= usize::MAX,
            4 * size <= usize::MAX,
            n + 2 * lap == size,
            out@.len() == size * size - n * n,
            forall|k: int| 0 <= k < out@.len() ==> #[trigger] out@[k] == spiral_index(size as int, k),
        decreases n,
    {
        let rim: usize = 4 * n - 4;
        let ghost base = out@.len() as int;
        proof {
            lemma_square_step(n as int);
        }
        let mut j: usize = 0;
        while j < rim
            invariant
                size * size <= usize::MAX,
                4 * size <= usize::MAX,
                n >= 2,
                rim == 4 * n - 4,
                n + 2 * lap == size,
                j <= rim,
                base == size * size - n * n,
                out@.len() == base + j,
                n * n - (4 * n - 4) == (n - 2) * (n - 2),
                forall|k: int|
                    0 <= k < out@.len() ==> #[trigger] out@[k] == spiral_index(size as int, k),
            decreases rim - j,
        {
            let (c, r) = ring_at(n, lap, j);
            proof {
                assert((n - 2) * (n - 2) >= 0) by (nonlinear_arith);
                lemma_spiral_lap(size as int, lap as int, j as int);
                lemma_row_col(size as int, c as int, r as int);
            }
            out.push(r * size + c);
            j += 1;
        }
        lap += 1;
        n -= 2;
    }
    if n == 1 {
        proof {
            assert(n * n == 1) by (nonlinear_arith)
                requires
                    n == 1,
            ;
            lemma_spiral_lap(size as int, lap as int, 0);
            lemma_row_col(size as int, lap as int, lap as int);
        }
        out.push(lap * size + lap);
    } else {
        assert(n * n == 0) by (nonlinear_arith)
            requires
                n == 0,
        ;
    }
    out
}

} // verus!
