//! Geometry of a square, row-major grid: indices, the border, and what it
//! means to pin the border to zero.

use vstd::prelude::*;
use vstd::arithmetic::div_mod::lemma_fundamental_div_mod_converse;
use vstd::arithmetic::div_mod::lemma_fundamental_div_mod;
use crate::single::ZERO;

verus! {

/// Column of the cell stored at index `i` of a grid of side `n`.
pub open spec fn col(n: int, i: int) -> int {
    i % n
}

/// Row of the cell stored at index `i` of a grid of side `n`.
pub open spec fn row(n: int, i: int) -> int {
    i / n
}

/// Whether column `x`, row `y` lies on the border of a grid of side `n`.
pub open spec fn on_border(n: int, x: int, y: int) -> bool {
    x == 0 || y == 0 || x == n - 1 || y == n - 1
}

/// Whether index `i` holds a border cell.
pub open spec fn border_index(n: int, i: int) -> bool {
    on_border(n, col(n, i), row(n, i))
}

/// The cell at column `x`, row `y`.
pub open spec fn at(cells: Seq<u32>, n: int, x: int, y: int) -> u32 {
    cells[y * n + x]
}

/// The grid with every border cell replaced by zero.
pub open spec fn zero_border(cells: Seq<u32>, n: int) -> Seq<u32> {
    Seq::new(
        cells.len(),
        |i: int|
            if border_index(n, i) {
                ZERO
            } else {
                cells[i]
            },
    )
}

/// Every border cell is exactly zero.
pub open spec fn border_is_zero(cells: Seq<u32>, n: int) -> bool {
    forall|i: int| 0 <= i < cells.len() && border_index(n, i) ==> cells[i] == ZERO
}

/// Column `x`, row `y` of a grid of side `n` is stored at `y * n + x`,
/// which is a valid index, and that index leads back to `x` and `y`.
pub proof fn lemma_index(n: int, x: int, y: int)
    requires
        0 <= x < n,
        0 <= y < n,
    ensures
        0 <= y * n + x < n * n,
        col(n, y * n + x) == x,
        row(n, y * n + x) == y,
{
    assert(0 <= y * n && y * n + n <= n * n) by (nonlinear_arith)
        requires
            0 <= y < n,
    ;
    lemma_fundamental_div_mod_converse(y * n + x, n, y, x);
}

/// Every valid index is the index of its own column and row.
pub proof fn lemma_col_row(n: int, i: int)
    requires
        0 < n,
        0 <= i < n * n,
    ensures
        0 <= col(n, i) < n,
        0 <= row(n, i) < n,
        i == row(n, i) * n + col(n, i),
{
    lemma_fundamental_div_mod(i, n);
    let q = i / n;
    assert(n * q == q * n) by (nonlinear_arith);
    assert(q < n) by (nonlinear_arith)
        requires
            0 < n,
            q * n <= i,
            i < n * n,
    ;
    assert(0 <= q) by (nonlinear_arith)
        requires
            0 < n,
            0 <= i,
            i == q * n + i % n,
            0 <= i % n < n,
    ;
}

/// Zeroing the border yields a grid whose border is zero; doing it to such
/// a grid changes nothing.
pub proof fn lemma_zero_border(cells: Seq<u32>, n: int)
    ensures
        border_is_zero(zero_border(cells, n), n),
        zero_border(cells, n).len() == cells.len(),
        border_is_zero(cells, n) ==> zero_border(cells, n) == cells,
        zero_border(zero_border(cells, n), n) == zero_border(cells, n),
{
    if border_is_zero(cells, n) {
        assert(zero_border(cells, n) =~= cells);
    }
    assert(zero_border(zero_border(cells, n), n) =~= zero_border(cells, n));
}

/// Zeroing the border leaves every interior cell as it is.
pub proof fn lemma_interior_is_kept(cells: Seq<u32>, n: int, x: int, y: int)
    requires
        cells.len() == n * n,
        0 < x < n - 1,
        0 < y < n - 1,
    ensures
        at(zero_border(cells, n), n, x, y) == at(cells, n, x, y),
{
    lemma_index(n, x, y);
}

/// In terms of columns and rows: a grid with a zero border holds zero at
/// every border position.
pub proof fn lemma_border_cell_is_zero(cells: Seq<u32>, n: int, x: int, y: int)
    requires
        cells.len() == n * n,
        border_is_zero(cells, n),
        0 <= x < n,
        0 <= y < n,
        on_border(n, x, y),
    ensures
        at(cells, n, x, y) == ZERO,
{
    lemma_index(n, x, y);
}


/// A side whose square fits in `usize` fits in `u32`.
pub proof fn lemma_side_fits(n: int)
    requires
        0 <= n,
        n * n <= usize::MAX,
    ensures
        n <= u32::MAX,
{
    assert(n <= 0xFFFF_FFFF) by (nonlinear_arith)
        requires
            0 <= n,
            n * n <= 0xFFFF_FFFF_FFFF_FFFF,
    ;
}

/// A vector of `len` zeros.
pub fn zeros(len: usize) -> (v: Vec<u32>)
    ensures
        v@ == Seq::new(len as nat, |i: int| ZERO),
{
    let mut v: Vec<u32> = Vec::new();
    let mut i: usize = 0;
    while i < len
        invariant
            i <= len,
            v@.len() == i,
            forall|j: int| 0 <= j < i ==> v@[j] == ZERO,
        decreases len - i,
    {
        v.push(ZERO);
        i += 1;
    }
    assert(v@ =~= Seq::new(len as nat, |i: int| ZERO));
    v
}

/// Overwrites every element with zero.
pub fn fill_zero(v: &mut Vec<u32>)
    ensures
        final(v)@ == Seq::new(old(v)@.len(), |i: int| ZERO),
{
    let len = v.len();
    let mut i: usize = 0;
    while i < len
        invariant
            i <= len,
            v@.len() == len,
            forall|j: int| 0 <= j < i ==> v@[j] == ZERO,
        decreases len - i,
    {
        v.set(i, ZERO);
        i += 1;
    }
    assert(v@ =~= Seq::new(old(v)@.len(), |i: int| ZERO));
}

} // verus!
