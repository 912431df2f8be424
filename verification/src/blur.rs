//! The three-by-three box blur.

use vstd::prelude::*;
use crate::arith::{apply, gives, single_valued, total, Op};
use crate::grid::{col, lemma_col_row, lemma_index, row, zeros};
use crate::single::{ONE, ZERO};

verus! {

/// First column or row of the three-wide window around `v`.
pub open spec fn window_first(v: int) -> int {
    if v == 0 {
        0
    } else {
        v - 1
    }
}

/// Last column or row of the three-wide window around `v` on a grid of
/// side `n`.
pub open spec fn window_last(n: int, v: int) -> int {
    if v + 1 < n - 1 {
        v + 1
    } else {
        n - 1
    }
}

/// `(s_out, c_out)` is what the evaluator may give for adding the cells of
/// row `yy` from column `x0` up to, not including, column `xe` to the sum
/// `s_in`, one after the other, and one for each of them to the count
/// `c_in`.
pub open spec fn is_row_fold<E: Fn(Op, u32, u32) -> u32>(
    eval: &E,
    cells: Seq<u32>,
    n: int,
    yy: int,
    x0: int,
    xe: int,
    s_in: u32,
    c_in: u32,
    s_out: u32,
    c_out: u32,
) -> bool
    decreases xe - x0,
{
    if xe <= x0 {
        s_out == s_in && c_out == c_in
    } else {
        exists|ps: u32, pc: u32|
            #![trigger
                gives(eval, Op::Add, ps, cells[yy * n + (xe - 1)], s_out),
                gives(eval, Op::Add, pc, ONE, c_out)]
            {
                &&& is_row_fold(eval, cells, n, yy, x0, xe - 1, s_in, c_in, ps, pc)
                &&& gives(eval, Op::Add, ps, cells[yy * n + (xe - 1)], s_out)
                &&& gives(eval, Op::Add, pc, ONE, c_out)
            }
    }
}

/// `(s_out, c_out)` is what the evaluator may give for the sum and the
/// count of the cells in the rows from `y0` up to, not including, `ye`
/// and the columns from `x0` up to, not including, `xe`, taken row by row
/// from zero.
pub open spec fn is_window_fold<E: Fn(Op, u32, u32) -> u32>(
    eval: &E,
    cells: Seq<u32>,
    n: int,
    y0: int,
    ye: int,
    x0: int,
    xe: int,
    s_out: u32,
    c_out: u32,
) -> bool
    decreases ye - y0,
{
    if ye <= y0 {
        s_out == ZERO && c_out == ZERO
    } else {
        exists|ps: u32, pc: u32|
            #![trigger is_row_fold(eval, cells, n, ye - 1, x0, xe, ps, pc, s_out, c_out)]
            {
                &&& is_window_fold(eval, cells, n, y0, ye - 1, x0, xe, ps, pc)
                &&& is_row_fold(eval, cells, n, ye - 1, x0, xe, ps, pc, s_out, c_out)
            }
    }
}

/// `v` is a mean that the evaluator may give for the cells within one
/// step of column `x`, row `y`, those outside the grid left out: their
/// sum divided by their count.
pub open spec fn is_window_mean<E: Fn(Op, u32, u32) -> u32>(
    eval: &E,
    cells: Seq<u32>,
    n: int,
    x: int,
    y: int,
    v: u32,
) -> bool {
    exists|s: u32, c: u32|
        #![trigger gives(eval, Op::Div, s, c, v)]
        {
            &&& is_window_fold(
                eval,
                cells,
                n,
                window_first(y),
                window_last(n, y) + 1,
                window_first(x),
                window_last(n, x) + 1,
                s,
                c,
            )
            &&& gives(eval, Op::Div, s, c, v)
        }
}

/// `after` is what one pass of the box blur may make of `before`.
pub open spec fn is_blur_pass<E: Fn(Op, u32, u32) -> u32>(
    eval: &E,
    n: int,
    before: Seq<u32>,
    after: Seq<u32>,
) -> bool {
    &&& after.len() == before.len()
    &&& forall|i: int|
        0 <= i < before.len() ==> is_window_mean(eval, before, n, col(n, i), row(n, i), #[trigger] after[i])
}

/// `after` is what `passes` passes of the box blur may make of `before`.
pub open spec fn is_blurred<E: Fn(Op, u32, u32) -> u32>(
    eval: &E,
    n: int,
    before: Seq<u32>,
    after: Seq<u32>,
    passes: nat,
) -> bool
    decreases passes,
{
    if passes == 0 {
        after == before
    } else {
        exists|mid: Seq<u32>|
            #![trigger is_blur_pass(eval, n, mid, after)]
            is_blurred(eval, n, before, mid, (passes - 1) as nat) && is_blur_pass(eval, n, mid, after)
    }
}

/// The mean of the cells within one step of column `x`, row `y`.
pub fn window_mean<E: Fn(Op, u32, u32) -> u32>(
    cells: &Vec<u32>,
    n: usize,
    x: usize,
    y: usize,
    eval: &E,
) -> (v: u32)
    requires
        total(eval),
        cells@.len() == n * n,
        x < n,
        y < n,
    ensures
        is_window_mean(eval, cells@, n as int, x as int, y as int, v),
{
    let ghost side = n as int;
    assert(cells@.len() == cells.len());
    let y0: usize = if y == 0 {
        0
    } else {
        y - 1
    };
    let y1: usize = if y + 1 < n - 1 {
        y + 1
    } else {
        n - 1
    };
    let x0: usize = if x == 0 {
        0
    } else {
        x - 1
    };
    let x1: usize = if x + 1 < n - 1 {
        x + 1
    } else {
        n - 1
    };
    let mut sum: u32 = ZERO;
    let mut cnt: u32 = ZERO;
    let mut yy: usize = y0;
    while yy <= y1
        invariant
            side == n as int,
            side * side <= usize::MAX,
            cells@.len() == side * side,
            total(eval),
            x0 <= x1 < n,
            y0 <= yy <= y1 + 1,
            y1 < n,
            is_window_fold(eval, cells@, side, y0 as int, yy as int, x0 as int, x1 + 1, sum, cnt),
        decreases y1 + 1 - yy,
    {
        let ghost s_in = sum;
        let ghost c_in = cnt;
        let mut xx: usize = x0;
        while xx <= x1
            invariant
                side == n as int,
                side * side <= usize::MAX,
                cells@.len() == side * side,
                total(eval),
                x0 <= xx <= x1 + 1,
                x1 < n,
                yy < n,
                is_row_fold(eval, cells@, side, yy as int, x0 as int, xx as int, s_in, c_in, sum, cnt),
            decreases x1 + 1 - xx,
        {
            proof {
                lemma_index(side, xx as int, yy as int);
            }
            let ghost ps = sum;
            let ghost pc = cnt;
            let cell = cells[yy * n + xx];
            sum = apply(eval, Op::Add, sum, cell);
            cnt = apply(eval, Op::Add, cnt, ONE);
            xx += 1;
            proof {
                assert(gives(eval, Op::Add, ps, cells@[yy * side + (xx - 1)], sum));
            }
        }
        yy += 1;
        proof {
            assert(is_row_fold(eval, cells@, side, yy - 1, x0 as int, x1 + 1, s_in, c_in, sum, cnt));
        }
    }
    apply(eval, Op::Div, sum, cnt)
}

/// One pass of the box blur: every cell of `out` becomes the mean of the
/// cells of `cells` within one step of it.
pub fn blur_pass<E: Fn(Op, u32, u32) -> u32>(cells: &Vec<u32>, out: &mut Vec<u32>, n: usize, eval: &E)
    requires
        total(eval),
        cells@.len() == n * n,
        old(out)@.len() == n * n,
    ensures
        is_blur_pass(eval, n as int, cells@, final(out)@),
{
    let ghost side = n as int;
    assert(cells@.len() == cells.len());
    let mut y: usize = 0;
    while y < n
        invariant
            side == n as int,
            side * side <= usize::MAX,
            y <= n,
            total(eval),
            cells@.len() == side * side,
            out@.len() == side * side,
            forall|i: int|
                0 <= i < side * side && row(side, i) < y ==> is_window_mean(
                    eval,
                    cells@,
                    side,
                    col(side, i),
                    row(side, i),
                    #[trigger] out@[i],
                ),
        decreases n - y,
    {
        let mut x: usize = 0;
        while x < n
            invariant
                side == n as int,
                side * side <= usize::MAX,
                y < n,
                x <= n,
                total(eval),
                cells@.len() == side * side,
                out@.len() == side * side,
                forall|i: int|
                    0 <= i < side * side && (row(side, i) < y || (row(side, i) == y && col(side, i)
                        < x)) ==> is_window_mean(
                        eval,
                        cells@,
                        side,
                        col(side, i),
                        row(side, i),
                        #[trigger] out@[i],
                    ),
            decreases n - x,
        {
            proof {
                lemma_index(side, x as int, y as int);
            }
            let v = window_mean(cells, n, x, y, eval);
            let idx: usize = y * n + x;
            let ghost prev = out@;
            out.set(idx, v);
            proof {
                assert forall|i: int|
                    0 <= i < side * side && (row(side, i) < y || (row(side, i) == y && col(side, i)
                        < x + 1)) implies is_window_mean(
                    eval,
                    cells@,
                    side,
                    col(side, i),
                    row(side, i),
                    #[trigger] out@[i],
                ) by {
                    lemma_col_row(side, i);
                    if i != idx {
                        assert(out@[i] == prev[i]);
                    }
                }
            }
            x += 1;
        }
        proof {
            assert forall|i: int| 0 <= i < side * side && row(side, i) < y + 1 implies is_window_mean(
                eval,
                cells@,
                side,
                col(side, i),
                row(side, i),
                #[trigger] out@[i],
            ) by {
                lemma_col_row(side, i);
            }
        }
        y += 1;
    }
    proof {
        assert forall|i: int| 0 <= i < side * side implies is_window_mean(
            eval,
            cells@,
            side,
            col(side, i),
            row(side, i),
            #[trigger] out@[i],
        ) by {
            lemma_col_row(side, i);
        }
    }
}

/// Smooths a field by `passes` passes of a three-by-three box blur. At the
/// edge of the grid a cell is averaged with the neighbours it has.
pub fn box_blur<E: Fn(Op, u32, u32) -> u32>(src: &Vec<u32>, n: usize, passes: usize, eval: &E) -> (out:
    Vec<u32>)
    requires
        total(eval),
        src@.len() == n * n,
    ensures
        out@.len() == src@.len(),
        is_blurred(eval, n as int, src@, out@, passes as nat),
        single_valued(eval) ==> forall|other: Seq<u32>|
            #[trigger] is_blurred(eval, n as int, src@, other, passes as nat) ==> other == out@,
{
    let mut cur = src.clone();
    assert(cur@ =~= src@);
    let mut tmp = zeros(src.len());
    let mut p: usize = 0;
    while p < passes
        invariant
            p <= passes,
            total(eval),
            cur@.len() == n * n,
            tmp@.len() == n * n,
            is_blurred(eval, n as int, src@, cur@, p as nat),
        decreases passes - p,
    {
        blur_pass(&cur, &mut tmp, n, eval);
        std::mem::swap(&mut cur, &mut tmp);
        p += 1;
    }
    proof {
        if single_valued(eval) {
            assert forall|other: Seq<u32>|
                #[trigger] is_blurred(eval, n as int, src@, other, passes as nat) implies other
                == cur@ by {
                lemma_blurred_unique(eval, n as int, src@, other, cur@, passes as nat);
            }
        }
    }
    cur
}

/// Under an evaluator that is a function, the sum and the count over part
/// of a row are fixed by the cells and by the sum and the count they are
/// added to.
pub proof fn lemma_row_fold_unique<E: Fn(Op, u32, u32) -> u32>(
    eval: &E,
    cells: Seq<u32>,
    n: int,
    yy: int,
    x0: int,
    xe: int,
    s_in: u32,
    c_in: u32,
    s1: u32,
    c1: u32,
    s2: u32,
    c2: u32,
)
    requires
        single_valued(eval),
        is_row_fold(eval, cells, n, yy, x0, xe, s_in, c_in, s1, c1),
        is_row_fold(eval, cells, n, yy, x0, xe, s_in, c_in, s2, c2),
    ensures
        s1 == s2,
        c1 == c2,
    decreases xe - x0,
{
    if xe > x0 {
        let (sum1, count1) = choose|ps: u32, pc: u32|
            {
                &&& is_row_fold(eval, cells, n, yy, x0, xe - 1, s_in, c_in, ps, pc)
                &&& #[trigger] gives(eval, Op::Add, ps, cells[yy * n + (xe - 1)], s1)
                &&& #[trigger] gives(eval, Op::Add, pc, ONE, c1)
            };
        let (sum2, count2) = choose|ps: u32, pc: u32|
            {
                &&& is_row_fold(eval, cells, n, yy, x0, xe - 1, s_in, c_in, ps, pc)
                &&& #[trigger] gives(eval, Op::Add, ps, cells[yy * n + (xe - 1)], s2)
                &&& #[trigger] gives(eval, Op::Add, pc, ONE, c2)
            };
        lemma_row_fold_unique(eval, cells, n, yy, x0, xe - 1, s_in, c_in, sum1, count1, sum2, count2);
    }
}

/// Under an evaluator that is a function, the sum and the count over a
/// window are fixed by the cells.
pub proof fn lemma_window_fold_unique<E: Fn(Op, u32, u32) -> u32>(
    eval: &E,
    cells: Seq<u32>,
    n: int,
    y0: int,
    ye: int,
    x0: int,
    xe: int,
    s1: u32,
    c1: u32,
    s2: u32,
    c2: u32,
)
    requires
        single_valued(eval),
        is_window_fold(eval, cells, n, y0, ye, x0, xe, s1, c1),
        is_window_fold(eval, cells, n, y0, ye, x0, xe, s2, c2),
    ensures
        s1 == s2,
        c1 == c2,
    decreases ye - y0,
{
    if ye > y0 {
        let (sum1, count1) = choose|ps: u32, pc: u32|
            {
                &&& is_window_fold(eval, cells, n, y0, ye - 1, x0, xe, ps, pc)
                &&& #[trigger] is_row_fold(eval, cells, n, ye - 1, x0, xe, ps, pc, s1, c1)
            };
        let (sum2, count2) = choose|ps: u32, pc: u32|
            {
                &&& is_window_fold(eval, cells, n, y0, ye - 1, x0, xe, ps, pc)
                &&& #[trigger] is_row_fold(eval, cells, n, ye - 1, x0, xe, ps, pc, s2, c2)
            };
        lemma_window_fold_unique(eval, cells, n, y0, ye - 1, x0, xe, sum1, count1, sum2, count2);
        lemma_row_fold_unique(eval, cells, n, ye - 1, x0, xe, sum1, count1, s1, c1, s2, c2);
    }
}

/// Under an evaluator that is a function, a pass of the blur is fixed by
/// the field it is made from.
pub proof fn lemma_blur_pass_unique<E: Fn(Op, u32, u32) -> u32>(
    eval: &E,
    n: int,
    before: Seq<u32>,
    after1: Seq<u32>,
    after2: Seq<u32>,
)
    requires
        single_valued(eval),
        is_blur_pass(eval, n, before, after1),
        is_blur_pass(eval, n, before, after2),
    ensures
        after1 == after2,
{
    assert forall|i: int| 0 <= i < before.len() implies after1[i] == after2[i] by {
        let x = col(n, i);
        let y = row(n, i);
        assert(is_window_mean(eval, before, n, x, y, after1[i]));
        assert(is_window_mean(eval, before, n, x, y, after2[i]));
        let (s1, c1) = choose|s: u32, c: u32|
            {
                &&& is_window_fold(
                    eval,
                    before,
                    n,
                    window_first(y),
                    window_last(n, y) + 1,
                    window_first(x),
                    window_last(n, x) + 1,
                    s,
                    c,
                )
                &&& #[trigger] gives(eval, Op::Div, s, c, after1[i])
            };
        let (s2, c2) = choose|s: u32, c: u32|
            {
                &&& is_window_fold(
                    eval,
                    before,
                    n,
                    window_first(y),
                    window_last(n, y) + 1,
                    window_first(x),
                    window_last(n, x) + 1,
                    s,
                    c,
                )
                &&& #[trigger] gives(eval, Op::Div, s, c, after2[i])
            };
        lemma_window_fold_unique(
            eval,
            before,
            n,
            window_first(y),
            window_last(n, y) + 1,
            window_first(x),
            window_last(n, x) + 1,
            s1,
            c1,
            s2,
            c2,
        );
    }
    assert(after1 =~= after2);
}

/// Under an evaluator that is a function, the blurred field is fixed by
/// the field it is made from and the number of passes.
pub proof fn lemma_blurred_unique<E: Fn(Op, u32, u32) -> u32>(
    eval: &E,
    n: int,
    before: Seq<u32>,
    after1: Seq<u32>,
    after2: Seq<u32>,
    passes: nat,
)
    requires
        single_valued(eval),
        is_blurred(eval, n, before, after1, passes),
        is_blurred(eval, n, before, after2, passes),
    ensures
        after1 == after2,
    decreases passes,
{
    if passes > 0 {
        let mid1 = choose|mid: Seq<u32>|
            is_blurred(eval, n, before, mid, (passes - 1) as nat) && #[trigger] is_blur_pass(
                eval,
                n,
                mid,
                after1,
            );
        let mid2 = choose|mid: Seq<u32>|
            is_blurred(eval, n, before, mid, (passes - 1) as nat) && #[trigger] is_blur_pass(
                eval,
                n,
                mid,
                after2,
            );
        lemma_blurred_unique(eval, n, before, mid1, mid2, (passes - 1) as nat);
        lemma_blur_pass_unique(eval, n, mid1, after1, after2);
    }
}

} // verus!
