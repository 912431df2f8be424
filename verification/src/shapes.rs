//! What initial conditions are built from: rectangles, Gaussian blobs,
//! ramps and noise.

use vstd::prelude::*;
use rand_chacha::ChaCha8Rng;
use crate::arith::{accepts, apply, draw, draws, gives, total, Op};
use crate::grid::{col, lemma_col_row, lemma_index, lemma_side_fits, row};
use crate::single::{larger, max, ONE, ZERO};

verus! {

/// Encoding of `-0.5`.
pub const NEG_HALF: u32 = 0xBF00_0000;

/// Encoding of `0.6`, the height of a ramp.
pub const RAMP_HEIGHT: u32 = 0x3F19_999A;

/// Whether column `x`, row `y` lies in the rectangle from `(x0, y0)` to
/// `(x1, y1)`, both corners included.
pub open spec fn in_rect(x: int, y: int, x0: int, y0: int, x1: int, y1: int) -> bool {
    x0 <= x <= x1 && y0 <= y <= y1
}

/// The field with `val` stamped over a rectangle: inside it every cell
/// becomes the larger of itself and `val`; outside nothing changes.
pub open spec fn stamped(
    cells: Seq<u32>,
    n: int,
    x0: int,
    y0: int,
    x1: int,
    y1: int,
    val: u32,
) -> Seq<u32> {
    Seq::new(
        cells.len(),
        |i: int|
            if in_rect(col(n, i), row(n, i), x0, y0, x1, y1) {
                larger(cells[i], val)
            } else {
                cells[i]
            },
    )
}

/// Stamps `val` over the rectangle from `(x0, y0)` to `(x1, y1)`, both
/// corners included, keeping whatever is larger in each cell.
pub fn stamp_rectangle(
    f: &mut Vec<u32>,
    n: usize,
    x0: usize,
    y0: usize,
    x1: usize,
    y1: usize,
    val: u32,
)
    requires
        old(f)@.len() == n * n,
        x1 < n,
        y1 < n,
    ensures
        final(f)@ == stamped(old(f)@, n as int, x0 as int, y0 as int, x1 as int, y1 as int, val),
{
    let ghost before = f@;
    let ghost side = n as int;
    assert(f@.len() == f.len());
    let mut y: usize = y0;
    while y <= y1
        invariant
            side == n as int,
            before.len() == side * side,
            f@.len() == side * side,
            side * side <= usize::MAX,
            x1 < n,
            y1 < n,
            y0 <= y,
            y <= y1 + 1 || y == y0,
            forall|i: int|
                0 <= i < side * side ==> #[trigger] f@[i] == if in_rect(
                    col(side, i),
                    row(side, i),
                    x0 as int,
                    y0 as int,
                    x1 as int,
                    y - 1,
                ) {
                    larger(before[i], val)
                } else {
                    before[i]
                },
        decreases y1 + 1 - y,
    {
        let mut x: usize = x0;
        while x <= x1
            invariant
                side == n as int,
                before.len() == side * side,
                f@.len() == side * side,
                side * side <= usize::MAX,
                x1 < n,
                y1 < n,
                y0 <= y <= y1,
                x0 <= x,
                x <= x1 + 1 || x == x0,
                forall|i: int|
                    0 <= i < side * side ==> #[trigger] f@[i] == if in_rect(
                        col(side, i),
                        row(side, i),
                        x0 as int,
                        y0 as int,
                        x1 as int,
                        y - 1,
                    ) || (row(side, i) == y && x0 <= col(side, i) < x) {
                        larger(before[i], val)
                    } else {
                        before[i]
                    },
            decreases x1 + 1 - x,
        {
            proof {
                lemma_index(side, x as int, y as int);
            }
            let idx: usize = y * n + x;
            let ghost prev = f@;
            let v = max(f[idx], val);
            f.set(idx, v);
            proof {
                assert forall|i: int| 0 <= i < side * side implies #[trigger] f@[i] == if in_rect(
                    col(side, i),
                    row(side, i),
                    x0 as int,
                    y0 as int,
                    x1 as int,
                    y - 1,
                ) || (row(side, i) == y && x0 <= col(side, i) < x + 1) {
                    larger(before[i], val)
                } else {
                    before[i]
                } by {
                    lemma_col_row(side, i);
                    if i != idx {
                        assert(f@[i] == prev[i]);
                    }
                }
            }
            x += 1;
        }
        y += 1;
    }
    assert(f@ =~= stamped(before, side, x0 as int, y0 as int, x1 as int, y1 as int, val));
}

/// A Gaussian blob: its centre in grid coordinates, its spread and its
/// amplitude, all as encodings.
#[derive(Clone, Copy, Debug)]
pub struct Blob {
    pub cx: u32,
    pub cy: u32,
    pub sigma: u32,
    pub amp: u32,
}

/// `c` is a coordinate that the evaluator may give for a centre drawn as
/// the fraction `s` of a grid of side `n`: `s * (n - 1)`.
pub open spec fn is_centre<E: Fn(Op, u32, u32) -> u32>(eval: &E, n: u32, s: u32, c: u32) -> bool {
    exists|nf: u32, m: u32|
        #![trigger gives(eval, Op::FromCount, n, 0, nf), gives(eval, Op::Sub, nf, ONE, m)]
        gives(eval, Op::FromCount, n, 0, nf) && gives(eval, Op::Sub, nf, ONE, m) && gives(
            eval,
            Op::Mul,
            s,
            m,
            c,
        )
}

/// `b` is a blob that may be drawn on a grid of side `n`: each coordinate
/// of its centre a fraction from `centre_low..centre_high` times `n - 1`,
/// its spread from `sigma_low..sigma_high`, its amplitude from
/// `amp_low..amp_high`.
pub open spec fn is_blob<E: Fn(Op, u32, u32) -> u32, S: Fn(&mut ChaCha8Rng, u32, u32) -> u32>(
    eval: &E,
    sample: &S,
    n: u32,
    centre_low: u32,
    centre_high: u32,
    sigma_low: u32,
    sigma_high: u32,
    amp_low: u32,
    amp_high: u32,
    b: Blob,
) -> bool {
    &&& exists|sx: u32|
        #![trigger is_centre(eval, n, sx, b.cx)]
        draws(sample, centre_low, centre_high, sx) && is_centre(eval, n, sx, b.cx)
    &&& exists|sy: u32|
        #![trigger is_centre(eval, n, sy, b.cy)]
        draws(sample, centre_low, centre_high, sy) && is_centre(eval, n, sy, b.cy)
    &&& draws(sample, sigma_low, sigma_high, b.sigma)
    &&& draws(sample, amp_low, amp_high, b.amp)
}

/// Draws a blob: the two coordinates of its centre as fractions from
/// `centre_low..centre_high`, scaled by `n - 1`, then its spread from
/// `sigma_low..sigma_high`, then its amplitude from `amp_low..amp_high`.
pub fn draw_blob<E: Fn(Op, u32, u32) -> u32, S: Fn(&mut ChaCha8Rng, u32, u32) -> u32>(
    rng: &mut ChaCha8Rng,
    n: u32,
    centre_low: u32,
    centre_high: u32,
    sigma_low: u32,
    sigma_high: u32,
    amp_low: u32,
    amp_high: u32,
    eval: &E,
    sample: &S,
) -> (b: Blob)
    requires
        total(eval),
        accepts(sample, centre_low, centre_high),
        accepts(sample, sigma_low, sigma_high),
        accepts(sample, amp_low, amp_high),
    ensures
        is_blob(
            eval,
            sample,
            n,
            centre_low,
            centre_high,
            sigma_low,
            sigma_high,
            amp_low,
            amp_high,
            b,
        ),
{
    let sx = draw(sample, rng, centre_low, centre_high);
    let nf = apply(eval, Op::FromCount, n, 0);
    let m = apply(eval, Op::Sub, nf, ONE);
    let cx = apply(eval, Op::Mul, sx, m);
    assert(is_centre(eval, n, sx, cx));
    let sy = draw(sample, rng, centre_low, centre_high);
    let nf2 = apply(eval, Op::FromCount, n, 0);
    let m2 = apply(eval, Op::Sub, nf2, ONE);
    let cy = apply(eval, Op::Mul, sy, m2);
    assert(is_centre(eval, n, sy, cy));
    let sigma = draw(sample, rng, sigma_low, sigma_high);
    let amp = draw(sample, rng, amp_low, amp_high);
    let b = Blob { cx, cy, sigma, amp };
    assert(is_centre(eval, n, sx, b.cx));
    assert(is_centre(eval, n, sy, b.cy));
    b
}

/// `v` is a height that the evaluator may give for the blob `b` at column
/// `x`, row `y`: `amp * exp(-0.5 * r2 / (sigma * sigma))`, where `r2` is
/// the squared distance from the centre.
pub open spec fn is_bump<E: Fn(Op, u32, u32) -> u32>(eval: &E, b: Blob, x: u32, y: u32, v: u32) -> bool {
    exists|
        xf: u32,
        dx: u32,
        yf: u32,
        dy: u32,
        dx2: u32,
        dy2: u32,
        r2: u32,
        t: u32,
        ss: u32,
        e: u32,
        g: u32,
    |
        #![trigger
            gives(eval, Op::Sub, xf, b.cx, dx),
            gives(eval, Op::Sub, yf, b.cy, dy),
            gives(eval, Op::Add, dx2, dy2, r2),
            gives(eval, Op::Div, t, ss, e),
            gives(eval, Op::Mul, b.amp, g, v)]
        {
            &&& gives(eval, Op::FromCount, x, 0, xf)
            &&& gives(eval, Op::Sub, xf, b.cx, dx)
            &&& gives(eval, Op::FromCount, y, 0, yf)
            &&& gives(eval, Op::Sub, yf, b.cy, dy)
            &&& gives(eval, Op::Mul, dx, dx, dx2)
            &&& gives(eval, Op::Mul, dy, dy, dy2)
            &&& gives(eval, Op::Add, dx2, dy2, r2)
            &&& gives(eval, Op::Mul, NEG_HALF, r2, t)
            &&& gives(eval, Op::Mul, b.sigma, b.sigma, ss)
            &&& gives(eval, Op::Div, t, ss, e)
            &&& gives(eval, Op::Exp, e, 0, g)
            &&& gives(eval, Op::Mul, b.amp, g, v)
        }
}

/// `after` is what adding the blob may make of the cell `before` at
/// column `x`, row `y`.
pub open spec fn is_raised<E: Fn(Op, u32, u32) -> u32>(
    eval: &E,
    b: Blob,
    x: u32,
    y: u32,
    before: u32,
    after: u32,
) -> bool {
    exists|v: u32|
        #![trigger is_bump(eval, b, x, y, v)]
        is_bump(eval, b, x, y, v) && gives(eval, Op::Add, before, v, after)
}

/// `after` is what adding the blob `b` may make of the field `before` on
/// a grid of side `n`.
pub open spec fn is_added<E: Fn(Op, u32, u32) -> u32>(
    eval: &E,
    n: int,
    b: Blob,
    before: Seq<u32>,
    after: Seq<u32>,
) -> bool {
    &&& after.len() == before.len()
    &&& forall|i: int|
        0 <= i < n * n ==> is_raised(
            eval,
            b,
            col(n, i) as u32,
            row(n, i) as u32,
            before[i],
            #[trigger] after[i],
        )
}

/// Adds the blob `b` to every cell of the field.
pub fn add_gaussian<E: Fn(Op, u32, u32) -> u32>(f: &mut Vec<u32>, n: usize, b: Blob, eval: &E)
    requires
        total(eval),
        old(f)@.len() == n * n,
    ensures
        is_added(eval, n as int, b, old(f)@, final(f)@),
{
    let ghost before = f@;
    let ghost side = n as int;
    assert(f@.len() == f.len());
    proof {
        lemma_side_fits(side);
    }
    let mut y: usize = 0;
    while y < n
        invariant
            side == n as int,
            side <= u32::MAX,
            side * side <= usize::MAX,
            y <= n,
            total(eval),
            before.len() == side * side,
            f@.len() == side * side,
            forall|i: int|
                0 <= i < side * side && row(side, i) < y ==> is_raised(
                    eval,
                    b,
                    col(side, i) as u32,
                    row(side, i) as u32,
                    before[i],
                    #[trigger] f@[i],
                ),
            forall|i: int| 0 <= i < side * side && row(side, i) >= y ==> #[trigger] f@[i] == before[i],
        decreases n - y,
    {
        let mut x: usize = 0;
        while x < n
            invariant
                side == n as int,
                side <= u32::MAX,
                side * side <= usize::MAX,
                y < n,
                x <= n,
                total(eval),
                before.len() == side * side,
                f@.len() == side * side,
                forall|i: int|
                    0 <= i < side * side && (row(side, i) < y || (row(side, i) == y && col(side, i)
                        < x)) ==> is_raised(
                        eval,
                        b,
                        col(side, i) as u32,
                        row(side, i) as u32,
                        before[i],
                        #[trigger] f@[i],
                    ),
                forall|i: int|
                    0 <= i < side * side && !(row(side, i) < y || (row(side, i) == y && col(side, i)
                        < x)) ==> #[trigger] f@[i] == before[i],
            decreases n - x,
        {
            proof {
                lemma_index(side, x as int, y as int);
            }
            let xf = apply(eval, Op::FromCount, x as u32, 0);
            let dx = apply(eval, Op::Sub, xf, b.cx);
            let yf = apply(eval, Op::FromCount, y as u32, 0);
            let dy = apply(eval, Op::Sub, yf, b.cy);
            let dx2 = apply(eval, Op::Mul, dx, dx);
            let dy2 = apply(eval, Op::Mul, dy, dy);
            let r2 = apply(eval, Op::Add, dx2, dy2);
            let t = apply(eval, Op::Mul, NEG_HALF, r2);
            let ss = apply(eval, Op::Mul, b.sigma, b.sigma);
            let e = apply(eval, Op::Div, t, ss);
            let g = apply(eval, Op::Exp, e, 0);
            let v = apply(eval, Op::Mul, b.amp, g);
            let idx: usize = y * n + x;
            let ghost prev = f@;
            let sum = apply(eval, Op::Add, f[idx], v);
            f.set(idx, sum);
            proof {
                assert(is_bump(eval, b, x as u32, y as u32, v));
                assert(is_raised(eval, b, x as u32, y as u32, before[idx as int], sum));
                assert forall|i: int|
                    0 <= i < side * side && (row(side, i) < y || (row(side, i) == y && col(side, i)
                        < x + 1)) implies is_raised(
                    eval,
                    b,
                    col(side, i) as u32,
                    row(side, i) as u32,
                    before[i],
                    #[trigger] f@[i],
                ) by {
                    lemma_col_row(side, i);
                    if i != idx {
                        assert(f@[i] == prev[i]);
                    }
                }
                assert forall|i: int|
                    0 <= i < side * side && !(row(side, i) < y || (row(side, i) == y && col(side, i)
                        < x + 1)) implies #[trigger] f@[i] == before[i] by {
                    lemma_col_row(side, i);
                    assert(f@[i] == prev[i]);
                }
            }
            x += 1;
        }
        proof {
            assert forall|i: int| 0 <= i < side * side && row(side, i) < y + 1 implies is_raised(
                eval,
                b,
                col(side, i) as u32,
                row(side, i) as u32,
                before[i],
                #[trigger] f@[i],
            ) by {
                lemma_col_row(side, i);
            }
        }
        y += 1;
    }
    proof {
        assert forall|i: int| 0 <= i < side * side implies is_raised(
            eval,
            b,
            col(side, i) as u32,
            row(side, i) as u32,
            before[i],
            #[trigger] f@[i],
        ) by {
            lemma_col_row(side, i);
        }
    }
}

/// The coordinate along which the ramp of direction `dir` runs: the
/// column for 0 and 2, the row otherwise.
pub open spec fn ramp_coordinate(dir: int, x: u32, y: u32) -> u32 {
    if dir == 0 || dir == 2 {
        x
    } else {
        y
    }
}

/// `v` is a height that the evaluator may give for the ramp of direction
/// `dir` at column `x`, row `y` of a grid of side `n`: `0.6 * t`, where
/// `t` is the coordinate divided by `n - 1` for the directions 0 and 1,
/// and one minus that for the others.
pub open spec fn is_ramp<E: Fn(Op, u32, u32) -> u32>(
    eval: &E,
    n: u32,
    dir: int,
    x: u32,
    y: u32,
    v: u32,
) -> bool {
    exists|af: u32, nf: u32, m: u32, q: u32, t: u32|
        #![trigger
            gives(eval, Op::Sub, nf, ONE, m),
            gives(eval, Op::Div, af, m, q),
            gives(eval, Op::Mul, RAMP_HEIGHT, t, v)]
        {
            &&& gives(eval, Op::FromCount, ramp_coordinate(dir, x, y), 0, af)
            &&& gives(eval, Op::FromCount, n, 0, nf)
            &&& gives(eval, Op::Sub, nf, ONE, m)
            &&& gives(eval, Op::Div, af, m, q)
            &&& if dir == 0 || dir == 1 {
                t == q
            } else {
                gives(eval, Op::Sub, ONE, q, t)
            }
            &&& gives(eval, Op::Mul, RAMP_HEIGHT, t, v)
        }
}

/// `cells` is a ramp of direction `dir` that the evaluator may give on a
/// grid of side `n`.
pub open spec fn is_ramp_field<E: Fn(Op, u32, u32) -> u32>(
    eval: &E,
    n: int,
    dir: int,
    cells: Seq<u32>,
) -> bool {
    &&& cells.len() == n * n
    &&& forall|i: int|
        0 <= i < n * n ==> is_ramp(
            eval,
            n as u32,
            dir,
            col(n, i) as u32,
            row(n, i) as u32,
            #[trigger] cells[i],
        )
}

/// Overwrites the field with a linear ramp of height `0.6`: rising with
/// the column for direction 0, with the row for 1, falling with the
/// column for 2 and with the row for any other direction.
pub fn fill_ramp<E: Fn(Op, u32, u32) -> u32>(f: &mut Vec<u32>, n: usize, dir: i32, eval: &E)
    requires
        total(eval),
        old(f)@.len() == n * n,
    ensures
        is_ramp_field(eval, n as int, dir as int, final(f)@),
{
    let ghost side = n as int;
    assert(f@.len() == f.len());
    proof {
        lemma_side_fits(side);
    }
    let mut y: usize = 0;
    while y < n
        invariant
            side == n as int,
            side <= u32::MAX,
            side * side <= usize::MAX,
            y <= n,
            total(eval),
            f@.len() == side * side,
            forall|i: int|
                0 <= i < side * side && row(side, i) < y ==> is_ramp(
                    eval,
                    n as u32,
                    dir as int,
                    col(side, i) as u32,
                    row(side, i) as u32,
                    #[trigger] f@[i],
                ),
        decreases n - y,
    {
        let mut x: usize = 0;
        while x < n
            invariant
                side == n as int,
                side <= u32::MAX,
                side * side <= usize::MAX,
                y < n,
                x <= n,
                total(eval),
                f@.len() == side * side,
                forall|i: int|
                    0 <= i < side * side && (row(side, i) < y || (row(side, i) == y && col(side, i)
                        < x)) ==> is_ramp(
                        eval,
                        n as u32,
                        dir as int,
                        col(side, i) as u32,
                        row(side, i) as u32,
                        #[trigger] f@[i],
                    ),
            decreases n - x,
        {
            proof {
                lemma_index(side, x as int, y as int);
            }
            let a: u32 = if dir == 0 || dir == 2 {
                x as u32
            } else {
                y as u32
            };
            let af = apply(eval, Op::FromCount, a, 0);
            let nf = apply(eval, Op::FromCount, n as u32, 0);
            let m = apply(eval, Op::Sub, nf, ONE);
            let q = apply(eval, Op::Div, af, m);
            let t = if dir == 0 || dir == 1 {
                q
            } else {
                apply(eval, Op::Sub, ONE, q)
            };
            let v = apply(eval, Op::Mul, RAMP_HEIGHT, t);
            let idx: usize = y * n + x;
            let ghost prev = f@;
            f.set(idx, v);
            proof {
                assert(is_ramp(eval, n as u32, dir as int, x as u32, y as u32, v));
                assert forall|i: int|
                    0 <= i < side * side && (row(side, i) < y || (row(side, i) == y && col(side, i)
                        < x + 1)) implies is_ramp(
                    eval,
                    n as u32,
                    dir as int,
                    col(side, i) as u32,
                    row(side, i) as u32,
                    #[trigger] f@[i],
                ) by {
                    lemma_col_row(side, i);
                    if i != idx {
                        assert(f@[i] == prev[i]);
                    }
                }
            }
            x += 1;
        }
        proof {
            assert forall|i: int| 0 <= i < side * side && row(side, i) < y + 1 implies is_ramp(
                eval,
                n as u32,
                dir as int,
                col(side, i) as u32,
                row(side, i) as u32,
                #[trigger] f@[i],
            ) by {
                lemma_col_row(side, i);
            }
        }
        y += 1;
    }
    proof {
        assert forall|i: int| 0 <= i < side * side implies is_ramp(
            eval,
            n as u32,
            dir as int,
            col(side, i) as u32,
            row(side, i) as u32,
            #[trigger] f@[i],
        ) by {
            lemma_col_row(side, i);
        }
    }
}

/// Every cell is a number that the sampler may draw from `0..1`.
pub open spec fn is_noise<S: Fn(&mut ChaCha8Rng, u32, u32) -> u32>(sample: &S, cells: Seq<u32>) -> bool {
    forall|i: int| 0 <= i < cells.len() ==> draws(sample, ZERO, ONE, #[trigger] cells[i])
}

/// Overwrites every cell, from the first to the last, with a number drawn
/// from `0..1`.
pub fn fill_noise<S: Fn(&mut ChaCha8Rng, u32, u32) -> u32>(
    f: &mut Vec<u32>,
    rng: &mut ChaCha8Rng,
    sample: &S,
)
    requires
        accepts(sample, ZERO, ONE),
    ensures
        final(f)@.len() == old(f)@.len(),
        is_noise(sample, final(f)@),
{
    let len = f.len();
    let mut i: usize = 0;
    while i < len
        invariant
            i <= len,
            f@.len() == len,
            accepts(sample, ZERO, ONE),
            forall|k: int| 0 <= k < i ==> draws(sample, ZERO, ONE, #[trigger] f@[k]),
        decreases len - i,
    {
        let v = draw(sample, rng, ZERO, ONE);
        f.set(i, v);
        i += 1;
    }
}

} // verus!
