//! The diffusion solver: a square field with a zero border, advanced by
//! explicit five-point-stencil substeps.

use vstd::prelude::*;
use crate::arith::{apply, gives, single_valued, total, Op};
use crate::grid::{
    border_index, border_is_zero, col, fill_zero, lemma_col_row, lemma_index, lemma_side_fits, row,
    zero_border, zeros,
};
use crate::single::{clamp, clamp_unit, clamped, clamped_unit, larger, max, unit_or_nan, ONE, ZERO};

verus! {

/// Encoding of `1e-8`, the least diffusivity a solver accepts.
pub const ALPHA_FLOOR: u32 = 0x322B_CC77;

/// Encoding of `0.05`, the least stability margin.
pub const MARGIN_MIN: u32 = 0x3D4C_CCCD;

/// Encoding of `0.99`, the greatest stability margin.
pub const MARGIN_MAX: u32 = 0x3F7D_70A4;

/// Encoding of `0.2`, the diffusivity of a new solver.
pub const DEFAULT_ALPHA: u32 = 0x3E4C_CCCD;

/// Encoding of `10.0`, the jump size of a new solver.
pub const DEFAULT_MU: u32 = 0x4120_0000;

/// Encoding of `0.8`, the run margin of a new solver.
pub const DEFAULT_S_RUN: u32 = 0x3F4C_CCCD;

/// Encoding of `0.35`, the reference margin of a new solver.
pub const DEFAULT_S_REF: u32 = 0x3EB3_3333;

/// Encoding of `4.0`.
pub const FOUR: u32 = 0x4080_0000;

/// What a solver is, to its users: the grid size, the parameters and the
/// field, row by row.
pub struct SolverView {
    pub n: nat,
    pub alpha: u32,
    pub mu: u32,
    pub s_run: u32,
    pub s_ref: u32,
    pub dx: u32,
    pub cells: Seq<u32>,
}

/// An explicit finite-difference solver for isotropic diffusion on an
/// `n` by `n` grid whose border is held at zero.
pub struct SolverCore {
    n: usize,
    alpha: u32,
    mu: u32,
    s_run: u32,
    s_ref: u32,
    dx: u32,
    field: Vec<u32>,
    next: Vec<u32>,
}

/// `dx` is a grid spacing that the evaluator may give for side `n`:
/// one divided by `n - 1`.
pub open spec fn is_spacing<E: Fn(Op, u32, u32) -> u32>(eval: &E, n: nat, dx: u32) -> bool {
    exists|m: u32|
        #![trigger gives(eval, Op::FromCount, (n - 1) as u32, 0, m)]
        gives(eval, Op::FromCount, (n - 1) as u32, 0, m) && gives(eval, Op::Div, ONE, m, dx)
}

/// `tau` is a macro interval that the evaluator may give:
/// `mu * dx * dx / alpha`, multiplied from the left.
pub open spec fn is_tau<E: Fn(Op, u32, u32) -> u32>(
    eval: &E,
    mu: u32,
    dx: u32,
    alpha: u32,
    tau: u32,
) -> bool {
    exists|p: u32, q: u32|
        #![trigger gives(eval, Op::Mul, mu, dx, p), gives(eval, Op::Mul, p, dx, q)]
        gives(eval, Op::Mul, mu, dx, p) && gives(eval, Op::Mul, p, dx, q) && gives(
            eval,
            Op::Div,
            q,
            alpha,
            tau,
        )
}

/// `c` is a stencil coefficient that the evaluator may give:
/// `alpha * dt / (dx * dx)`.
pub open spec fn is_coefficient<E: Fn(Op, u32, u32) -> u32>(
    eval: &E,
    alpha: u32,
    dt: u32,
    dx: u32,
    c: u32,
) -> bool {
    exists|dx2: u32, a: u32|
        #![trigger gives(eval, Op::Mul, dx, dx, dx2), gives(eval, Op::Mul, alpha, dt, a)]
        gives(eval, Op::Mul, dx, dx, dx2) && gives(eval, Op::Mul, alpha, dt, a) && gives(
            eval,
            Op::Div,
            a,
            dx2,
            c,
        )
}

/// `r` is a value that the evaluator may give for one cell before the
/// clamp: `u + c * (((up + down) + left) + right - 4 * u)`.
pub open spec fn is_update<E: Fn(Op, u32, u32) -> u32>(
    eval: &E,
    c: u32,
    u: u32,
    up: u32,
    down: u32,
    left: u32,
    right: u32,
    r: u32,
) -> bool {
    exists|s1: u32, s2: u32, s3: u32, q: u32, lap: u32, d: u32|
        #![trigger
            gives(eval, Op::Add, up, down, s1),
            gives(eval, Op::Add, s1, left, s2),
            gives(eval, Op::Add, s2, right, s3),
            gives(eval, Op::Sub, s3, q, lap),
            gives(eval, Op::Mul, c, lap, d)]
        {
            &&& gives(eval, Op::Add, up, down, s1)
            &&& gives(eval, Op::Add, s1, left, s2)
            &&& gives(eval, Op::Add, s2, right, s3)
            &&& gives(eval, Op::Mul, FOUR, u, q)
            &&& gives(eval, Op::Sub, s3, q, lap)
            &&& gives(eval, Op::Mul, c, lap, d)
            &&& gives(eval, Op::Add, u, d, r)
        }
}

/// `v` is what one substep with coefficient `c` may leave at the interior
/// index `i`: the clamped update of the cell from itself and its four
/// neighbours in `before`.
pub open spec fn cell_updated<E: Fn(Op, u32, u32) -> u32>(
    eval: &E,
    c: u32,
    n: int,
    before: Seq<u32>,
    i: int,
    v: u32,
) -> bool {
    exists|raw: u32|
        #![trigger clamped_unit(raw)]
        is_update(
            eval,
            c,
            before[i],
            before[i - n],
            before[i + n],
            before[i - 1],
            before[i + 1],
            raw,
        ) && v == clamped_unit(raw)
}

/// `after` is a field that one substep of length `dt` may produce from
/// `before`: zero on the border, the clamped update everywhere else, all
/// cells read from `before`.
pub open spec fn is_substep<E: Fn(Op, u32, u32) -> u32>(
    eval: &E,
    alpha: u32,
    dx: u32,
    dt: u32,
    n: int,
    before: Seq<u32>,
    after: Seq<u32>,
) -> bool {
    &&& after.len() == before.len()
    &&& exists|c: u32|
        #![trigger is_coefficient(eval, alpha, dt, dx, c)]
        {
            &&& is_coefficient(eval, alpha, dt, dx, c)
            &&& forall|i: int|
                0 <= i < before.len() ==> if border_index(n, i) {
                    #[trigger] after[i] == ZERO
                } else {
                    cell_updated(eval, c, n, before, i, after[i])
                }
        }
}

/// `after` is a field that `k` substeps of length `dt` may produce from
/// `before`.
pub open spec fn advanced<E: Fn(Op, u32, u32) -> u32>(
    eval: &E,
    alpha: u32,
    dx: u32,
    dt: u32,
    n: int,
    before: Seq<u32>,
    after: Seq<u32>,
    k: nat,
) -> bool
    decreases k,
{
    if k == 0 {
        after == before
    } else {
        exists|mid: Seq<u32>|
            #![trigger is_substep(eval, alpha, dx, dt, n, mid, after)]
            advanced(eval, alpha, dx, dt, n, before, mid, (k - 1) as nat) && is_substep(
                eval,
                alpha,
                dx,
                dt,
                n,
                mid,
                after,
            )
    }
}

/// The number of substeps for a raw count `raw`: at least one.
pub open spec fn at_least_one(raw: u32) -> u32 {
    if raw < 1 {
        1
    } else {
        raw
    }
}

/// `k` substeps of length `dt` are a plan that the evaluator may give for
/// covering `tau` under the margin `s`: with `dt_max = dx * dx / (4 *
/// alpha)`, `k` is the ceiling of `tau / (s * dt_max)`, raised to one, and
/// `dt` is `tau / k`.
pub open spec fn is_plan<E: Fn(Op, u32, u32) -> u32>(
    eval: &E,
    s: u32,
    dx: u32,
    alpha: u32,
    tau: u32,
    k: u32,
    dt: u32,
) -> bool {
    exists|dx2: u32, a4: u32, dt_max: u32, dt0: u32, ratio: u32, raw: u32, kf: u32|
        #![trigger
            gives(eval, Op::Mul, dx, dx, dx2),
            gives(eval, Op::Mul, FOUR, alpha, a4),
            gives(eval, Op::Mul, s, dt_max, dt0),
            gives(eval, Op::Div, tau, dt0, ratio),
            gives(eval, Op::CeilCount, ratio, 0, raw),
            gives(eval, Op::FromCount, k, 0, kf)]
        {
            &&& gives(eval, Op::Mul, dx, dx, dx2)
            &&& gives(eval, Op::Mul, FOUR, alpha, a4)
            &&& gives(eval, Op::Div, dx2, a4, dt_max)
            &&& gives(eval, Op::Mul, s, dt_max, dt0)
            &&& gives(eval, Op::Div, tau, dt0, ratio)
            &&& gives(eval, Op::CeilCount, ratio, 0, raw)
            &&& k == at_least_one(raw)
            &&& gives(eval, Op::FromCount, k, 0, kf)
            &&& gives(eval, Op::Div, tau, kf, dt)
        }
}

/// What a step by one macro interval under the margin `s` may do: return
/// the pair `(k, tau)` and turn `before` into `after` by `k` substeps.
pub open spec fn is_step<E: Fn(Op, u32, u32) -> u32>(
    eval: &E,
    s: u32,
    before: SolverView,
    after: SolverView,
    k: u32,
    tau: u32,
) -> bool {
    &&& after == (SolverView { cells: after.cells, ..before })
    &&& is_tau(eval, before.mu, before.dx, before.alpha, tau)
    &&& exists|dt: u32|
        #![trigger is_plan(eval, s, before.dx, before.alpha, tau, k, dt)]
        is_plan(eval, s, before.dx, before.alpha, tau, k, dt) && advanced(
            eval,
            before.alpha,
            before.dx,
            dt,
            before.n as int,
            before.cells,
            after.cells,
            k as nat,
        )
}

/// A plan takes at least one substep.
pub proof fn lemma_plan_takes_a_substep<E: Fn(Op, u32, u32) -> u32>(
    eval: &E,
    s: u32,
    dx: u32,
    alpha: u32,
    tau: u32,
    k: u32,
    dt: u32,
)
    requires
        is_plan(eval, s, dx, alpha, tau, k, dt),
    ensures
        k >= 1,
{
}

/// After a substep every border cell is exactly zero, and every cell is a
/// NaN or within `[0, 1]`.
pub proof fn lemma_substep_bounds<E: Fn(Op, u32, u32) -> u32>(
    eval: &E,
    alpha: u32,
    dx: u32,
    dt: u32,
    n: int,
    before: Seq<u32>,
    after: Seq<u32>,
)
    requires
        is_substep(eval, alpha, dx, dt, n, before, after),
    ensures
        after.len() == before.len(),
        border_is_zero(after, n),
        forall|i: int| 0 <= i < after.len() ==> unit_or_nan(#[trigger] after[i]),
{
    let c = choose|c: u32|
        {
            &&& #[trigger] is_coefficient(eval, alpha, dt, dx, c)
            &&& forall|i: int|
                0 <= i < before.len() ==> if border_index(n, i) {
                    #[trigger] after[i] == ZERO
                } else {
                    cell_updated(eval, c, n, before, i, after[i])
                }
        };
    assert forall|i: int| 0 <= i < after.len() implies unit_or_nan(#[trigger] after[i]) by {
        if !border_index(n, i) {
            assert(cell_updated(eval, c, n, before, i, after[i]));
        }
    }
}

/// After one or more substeps every border cell is exactly zero, and
/// every cell is a NaN or within `[0, 1]`.
pub proof fn lemma_advanced_bounds<E: Fn(Op, u32, u32) -> u32>(
    eval: &E,
    alpha: u32,
    dx: u32,
    dt: u32,
    n: int,
    before: Seq<u32>,
    after: Seq<u32>,
    k: nat,
)
    requires
        advanced(eval, alpha, dx, dt, n, before, after, k),
    ensures
        after.len() == before.len(),
        k >= 1 ==> border_is_zero(after, n),
        k >= 1 ==> forall|i: int| 0 <= i < after.len() ==> unit_or_nan(#[trigger] after[i]),
    decreases k,
{
    if k > 0 {
        let mid = choose|mid: Seq<u32>|
            advanced(eval, alpha, dx, dt, n, before, mid, (k - 1) as nat) && #[trigger] is_substep(
                eval,
                alpha,
                dx,
                dt,
                n,
                mid,
                after,
            );
        lemma_advanced_bounds(eval, alpha, dx, dt, n, before, mid, (k - 1) as nat);
        lemma_substep_bounds(eval, alpha, dx, dt, n, mid, after);
    }
}

/// A step takes at least one substep; after it every border cell is
/// exactly zero, and every cell is a NaN or within `[0, 1]`.
pub proof fn lemma_step_bounds<E: Fn(Op, u32, u32) -> u32>(
    eval: &E,
    s: u32,
    before: SolverView,
    after: SolverView,
    k: u32,
    tau: u32,
)
    requires
        is_step(eval, s, before, after, k, tau),
    ensures
        k >= 1,
        after.n == before.n,
        after.cells.len() == before.cells.len(),
        border_is_zero(after.cells, after.n as int),
        forall|i: int| 0 <= i < after.cells.len() ==> unit_or_nan(#[trigger] after.cells[i]),
{
    let dt = choose|dt: u32|
        #![trigger is_plan(eval, s, before.dx, before.alpha, tau, k, dt)]
        is_plan(eval, s, before.dx, before.alpha, tau, k, dt) && advanced(
            eval,
            before.alpha,
            before.dx,
            dt,
            before.n as int,
            before.cells,
            after.cells,
            k as nat,
        );
    lemma_plan_takes_a_substep(eval, s, before.dx, before.alpha, tau, k, dt);
    lemma_advanced_bounds(
        eval,
        before.alpha,
        before.dx,
        dt,
        before.n as int,
        before.cells,
        after.cells,
        k as nat,
    );
}

/// Under an evaluator that is a function, the macro interval is fixed by
/// the parameters.
pub proof fn lemma_tau_unique<E: Fn(Op, u32, u32) -> u32>(
    eval: &E,
    mu: u32,
    dx: u32,
    alpha: u32,
    tau1: u32,
    tau2: u32,
)
    requires
        single_valued(eval),
        is_tau(eval, mu, dx, alpha, tau1),
        is_tau(eval, mu, dx, alpha, tau2),
    ensures
        tau1 == tau2,
{
}

/// Under an evaluator that is a function, the number and the length of
/// the substeps are fixed by the margin, the parameters and the interval.
pub proof fn lemma_plan_unique<E: Fn(Op, u32, u32) -> u32>(
    eval: &E,
    s: u32,
    dx: u32,
    alpha: u32,
    tau: u32,
    k1: u32,
    dt1: u32,
    k2: u32,
    dt2: u32,
)
    requires
        single_valued(eval),
        is_plan(eval, s, dx, alpha, tau, k1, dt1),
        is_plan(eval, s, dx, alpha, tau, k2, dt2),
    ensures
        k1 == k2,
        dt1 == dt2,
{
}

/// Under an evaluator that is a function, a substep is fixed by the field
/// it starts from.
pub proof fn lemma_substep_unique<E: Fn(Op, u32, u32) -> u32>(
    eval: &E,
    alpha: u32,
    dx: u32,
    dt: u32,
    n: int,
    before: Seq<u32>,
    after1: Seq<u32>,
    after2: Seq<u32>,
)
    requires
        single_valued(eval),
        is_substep(eval, alpha, dx, dt, n, before, after1),
        is_substep(eval, alpha, dx, dt, n, before, after2),
    ensures
        after1 == after2,
{
    let c1 = choose|c: u32|
        {
            &&& #[trigger] is_coefficient(eval, alpha, dt, dx, c)
            &&& forall|i: int|
                0 <= i < before.len() ==> if border_index(n, i) {
                    #[trigger] after1[i] == ZERO
                } else {
                    cell_updated(eval, c, n, before, i, after1[i])
                }
        };
    let c2 = choose|c: u32|
        {
            &&& #[trigger] is_coefficient(eval, alpha, dt, dx, c)
            &&& forall|i: int|
                0 <= i < before.len() ==> if border_index(n, i) {
                    #[trigger] after2[i] == ZERO
                } else {
                    cell_updated(eval, c, n, before, i, after2[i])
                }
        };
    assert(c1 == c2);
    assert forall|i: int| 0 <= i < before.len() implies after1[i] == after2[i] by {
        if !border_index(n, i) {
            assert(cell_updated(eval, c1, n, before, i, after1[i]));
            assert(cell_updated(eval, c2, n, before, i, after2[i]));
        }
    }
    assert(after1 =~= after2);
}

/// Under an evaluator that is a function, the field after `k` substeps is
/// fixed by the field they start from.
pub proof fn lemma_advanced_unique<E: Fn(Op, u32, u32) -> u32>(
    eval: &E,
    alpha: u32,
    dx: u32,
    dt: u32,
    n: int,
    before: Seq<u32>,
    after1: Seq<u32>,
    after2: Seq<u32>,
    k: nat,
)
    requires
        single_valued(eval),
        advanced(eval, alpha, dx, dt, n, before, after1, k),
        advanced(eval, alpha, dx, dt, n, before, after2, k),
    ensures
        after1 == after2,
    decreases k,
{
    if k > 0 {
        let mid1 = choose|mid: Seq<u32>|
            advanced(eval, alpha, dx, dt, n, before, mid, (k - 1) as nat) && #[trigger] is_substep(
                eval,
                alpha,
                dx,
                dt,
                n,
                mid,
                after1,
            );
        let mid2 = choose|mid: Seq<u32>|
            advanced(eval, alpha, dx, dt, n, before, mid, (k - 1) as nat) && #[trigger] is_substep(
                eval,
                alpha,
                dx,
                dt,
                n,
                mid,
                after2,
            );
        lemma_advanced_unique(eval, alpha, dx, dt, n, before, mid1, mid2, (k - 1) as nat);
        lemma_substep_unique(eval, alpha, dx, dt, n, mid1, after1, after2);
    }
}

/// Under an evaluator that is a function, a step is fixed by the solver
/// it starts from: two steps from one state under one margin take the
/// same number of substeps over the same interval and leave the same
/// state.
pub proof fn lemma_step_unique<E: Fn(Op, u32, u32) -> u32>(
    eval: &E,
    s: u32,
    before: SolverView,
    after1: SolverView,
    k1: u32,
    tau1: u32,
    after2: SolverView,
    k2: u32,
    tau2: u32,
)
    requires
        single_valued(eval),
        is_step(eval, s, before, after1, k1, tau1),
        is_step(eval, s, before, after2, k2, tau2),
    ensures
        after1 == after2,
        k1 == k2,
        tau1 == tau2,
{
    lemma_tau_unique(eval, before.mu, before.dx, before.alpha, tau1, tau2);
    let dt1 = choose|dt: u32|
        #![trigger is_plan(eval, s, before.dx, before.alpha, tau1, k1, dt)]
        is_plan(eval, s, before.dx, before.alpha, tau1, k1, dt) && advanced(
            eval,
            before.alpha,
            before.dx,
            dt,
            before.n as int,
            before.cells,
            after1.cells,
            k1 as nat,
        );
    let dt2 = choose|dt: u32|
        #![trigger is_plan(eval, s, before.dx, before.alpha, tau2, k2, dt)]
        is_plan(eval, s, before.dx, before.alpha, tau2, k2, dt) && advanced(
            eval,
            before.alpha,
            before.dx,
            dt,
            before.n as int,
            before.cells,
            after2.cells,
            k2 as nat,
        );
    lemma_plan_unique(eval, s, before.dx, before.alpha, tau1, k1, dt1, k2, dt2);
    lemma_advanced_unique(
        eval,
        before.alpha,
        before.dx,
        dt1,
        before.n as int,
        before.cells,
        after1.cells,
        after2.cells,
        k1 as nat,
    );
}

/// The step from `before` to `after` with the pair `(k, tau)` is the only
/// one that the evaluator may give under the margin `s`: the same state
/// steps to the same state, in the same number of substeps, over the same
/// interval.
pub open spec fn is_only_step<E: Fn(Op, u32, u32) -> u32>(
    eval: &E,
    s: u32,
    before: SolverView,
    after: SolverView,
    k: u32,
    tau: u32,
) -> bool {
    forall|other: SolverView, k2: u32, tau2: u32| #[trigger]
        is_step(eval, s, before, other, k2, tau2) ==> other == after && k2 == k && tau2 == tau
}

/// Under an evaluator that is a function, a step that may be given is the
/// only one.
pub proof fn lemma_only_step<E: Fn(Op, u32, u32) -> u32>(
    eval: &E,
    s: u32,
    before: SolverView,
    after: SolverView,
    k: u32,
    tau: u32,
)
    requires
        single_valued(eval),
        is_step(eval, s, before, after, k, tau),
    ensures
        is_only_step(eval, s, before, after, k, tau),
{
    assert forall|other: SolverView, k2: u32, tau2: u32| #[trigger]
        is_step(eval, s, before, other, k2, tau2) implies other == after && k2 == k && tau2
        == tau by {
        lemma_step_unique(eval, s, before, other, k2, tau2, after, k, tau);
    }
}

impl View for SolverCore {
    type V = SolverView;

    closed spec fn view(&self) -> SolverView {
        SolverView {
            n: self.n as nat,
            alpha: self.alpha,
            mu: self.mu,
            s_run: self.s_run,
            s_ref: self.s_ref,
            dx: self.dx,
            cells: self.field@,
        }
    }
}

impl SolverView {
    /// The invariant of every solver: at least one interior cell, a field
    /// of `n * n` cells, each a NaN or within `[0, 1]`, and every
    /// parameter within its limits.
    pub open spec fn valid(self) -> bool {
        &&& self.n >= 3
        &&& self.cells.len() == self.n * self.n
        &&& forall|i: int| 0 <= i < self.cells.len() ==> unit_or_nan(#[trigger] self.cells[i])
        &&& self.alpha == larger(self.alpha, ALPHA_FLOOR)
        &&& self.mu == larger(self.mu, ZERO)
        &&& self.s_run == clamped(self.s_run, MARGIN_MIN, MARGIN_MAX)
        &&& self.s_ref == clamped(self.s_ref, MARGIN_MIN, MARGIN_MAX)
    }
}

impl SolverCore {
    /// Well-formedness: the view is valid, the scratch buffer is as long as
    /// the field, and the field fits in memory.
    pub closed spec fn wf(&self) -> bool {
        &&& self@.valid()
        &&& self.next@.len() == self.field@.len()
        &&& forall|i: int| 0 <= i < self.next@.len() ==> unit_or_nan(#[trigger] self.next@[i])
        &&& self.n * self.n <= usize::MAX
    }

    /// A well-formed solver has a valid view.
    pub proof fn lemma_wf_valid(&self)
        requires
            self.wf(),
        ensures
            self@.valid(),
            self@.n * self@.n <= usize::MAX,
    {
    }

    /// Creates a solver of side `n` with a zero field and the default
    /// parameters. Fails if the grid would have no interior cell.
    pub fn new<E: Fn(Op, u32, u32) -> u32>(n: usize, eval: &E) -> (r: Result<SolverCore, String>)
        requires
            total(eval),
            n * n <= usize::MAX,
        ensures
            r is Ok <==> n >= 3,
            r matches Err(msg) ==> msg@ == "n must be >= 3"@,
            r matches Ok(s) ==> {
                &&& s.wf()
                &&& s@.n == n
                &&& s@.alpha == DEFAULT_ALPHA
                &&& s@.mu == DEFAULT_MU
                &&& s@.s_run == DEFAULT_S_RUN
                &&& s@.s_ref == DEFAULT_S_REF
                &&& is_spacing(eval, n as nat, s@.dx)
                &&& s@.cells == Seq::new((n * n) as nat, |i: int| ZERO)
            },
    {
        if n < 3 {
            return Err("n must be >= 3".to_owned());
        }
        proof {
            lemma_side_fits(n as int);
        }
        let m = apply(eval, Op::FromCount, (n - 1) as u32, 0);
        let dx = apply(eval, Op::Div, ONE, m);
        let size: usize = n * n;
        let field = zeros(size);
        let next = zeros(size);
        let s = SolverCore {
            n,
            alpha: DEFAULT_ALPHA,
            mu: DEFAULT_MU,
            s_run: DEFAULT_S_RUN,
            s_ref: DEFAULT_S_REF,
            dx,
            field,
            next,
        };
        assert(s@.cells =~= Seq::new((n * n) as nat, |i: int| ZERO));
        Ok(s)
    }

    /// Sets the diffusivity, raised to `1e-8` where it is below that or a
    /// NaN.
    pub fn set_alpha(&mut self, alpha: u32)
        requires
            old(self).wf(),
        ensures
            final(self).wf(),
            final(self)@ == (SolverView { alpha: larger(alpha, ALPHA_FLOOR), ..old(self)@ }),
    {
        self.alpha = max(alpha, ALPHA_FLOOR);
    }

    /// Sets the jump size, raised to zero where it is negative or a NaN.
    pub fn set_mu(&mut self, mu: u32)
        requires
            old(self).wf(),
        ensures
            final(self).wf(),
            final(self)@ == (SolverView { mu: larger(mu, ZERO), ..old(self)@ }),
    {
        self.mu = max(mu, ZERO);
    }

    /// Sets the run margin, limited to `[0.05, 0.99]`.
    pub fn set_s_run(&mut self, s: u32)
        requires
            old(self).wf(),
        ensures
            final(self).wf(),
            final(self)@ == (SolverView {
                s_run: clamped(s, MARGIN_MIN, MARGIN_MAX),
                ..old(self)@
            }),
    {
        self.s_run = clamp(s, MARGIN_MIN, MARGIN_MAX);
    }

    /// Sets the reference margin, limited to `[0.05, 0.99]`.
    pub fn set_s_ref(&mut self, s: u32)
        requires
            old(self).wf(),
        ensures
            final(self).wf(),
            final(self)@ == (SolverView {
                s_ref: clamped(s, MARGIN_MIN, MARGIN_MAX),
                ..old(self)@
            }),
    {
        self.s_ref = clamp(s, MARGIN_MIN, MARGIN_MAX);
    }

    /// The grid spacing, fixed at construction.
    pub fn get_dx(&self) -> (dx: u32)
        ensures
            dx == self@.dx,
    {
        self.dx
    }

    /// The macro interval `mu * dx * dx / alpha`, from the current
    /// parameters.
    pub fn get_tau<E: Fn(Op, u32, u32) -> u32>(&self, eval: &E) -> (tau: u32)
        requires
            total(eval),
        ensures
            is_tau(eval, self@.mu, self@.dx, self@.alpha, tau),
            single_valued(eval) ==> forall|t: u32|
                #[trigger] is_tau(eval, self@.mu, self@.dx, self@.alpha, t) ==> t == tau,
    {
        let p = apply(eval, Op::Mul, self.mu, self.dx);
        let q = apply(eval, Op::Mul, p, self.dx);
        let tau = apply(eval, Op::Div, q, self.alpha);
        proof {
            if single_valued(eval) {
                assert forall|t: u32|
                    #[trigger] is_tau(eval, self@.mu, self@.dx, self@.alpha, t) implies t == tau by {
                    lemma_tau_unique(eval, self@.mu, self@.dx, self@.alpha, t, tau);
                }
            }
        }
        tau
    }

    /// The run margin.
    pub fn get_s_run(&self) -> (s: u32)
        ensures
            s == self@.s_run,
    {
        self.s_run
    }

    /// The reference margin.
    pub fn get_s_ref(&self) -> (s: u32)
        ensures
            s == self@.s_ref,
    {
        self.s_ref
    }

    /// The side of the grid.
    pub fn n(&self) -> (n: usize)
        ensures
            n == self@.n,
    {
        self.n
    }

    /// The field, row by row.
    pub fn field(&self) -> (f: &[u32])
        ensures
            f@ == self@.cells,
    {
        self.field.as_slice()
    }

    /// A copy of the field, independent of the solver.
    pub fn clone_field(&self) -> (f: Vec<u32>)
        ensures
            f@ == self@.cells,
    {
        let f = self.field.clone();
        assert(f@ =~= self.field@);
        f
    }

    /// Sets every cell to zero.
    pub fn clear(&mut self)
        requires
            old(self).wf(),
        ensures
            final(self).wf(),
            final(self)@ == (SolverView {
                cells: Seq::new(old(self)@.cells.len(), |i: int| ZERO),
                ..old(self)@
            }),
    {
        fill_zero(&mut self.field);
        fill_zero(&mut self.next);
        assert(self@.cells =~= Seq::new(old(self)@.cells.len(), |i: int| ZERO));
    }

    /// Stores `value`, limited to `[0, 1]`, at column `x`, row `y`; does
    /// nothing for a position outside the grid. The border is not zeroed
    /// again: that is left to `finalize_ic`.
    pub fn set_cell(&mut self, x: usize, y: usize, value: u32)
        requires
            old(self).wf(),
        ensures
            final(self).wf(),
            x < old(self)@.n && y < old(self)@.n ==> final(self)@ == (SolverView {
                cells: old(self)@.cells.update(y * old(self)@.n + x, clamped_unit(value)),
                ..old(self)@
            }),
            !(x < old(self)@.n && y < old(self)@.n) ==> final(self)@ == old(self)@,
    {
        if x >= self.n || y >= self.n {
            return ;
        }
        proof {
            lemma_index(self.n as int, x as int, y as int);
        }
        let idx: usize = y * self.n + x;
        self.field.set(idx, clamp_unit(value));
    }

    /// Adds `value` to the cell at column `x`, row `y`, limits the sum to
    /// `[0, 1]` and zeroes the border; does nothing for a position outside
    /// the grid.
    pub fn add_hotspot<E: Fn(Op, u32, u32) -> u32>(&mut self, x: usize, y: usize, value: u32, eval: &E)
        requires
            old(self).wf(),
            total(eval),
        ensures
            final(self).wf(),
            x < old(self)@.n && y < old(self)@.n ==> exists|sum: u32|
                #![trigger clamped_unit(sum)]
                {
                    &&& gives(eval, Op::Add, old(self)@.cells[y * old(self)@.n + x], value, sum)
                    &&& final(self)@ == (SolverView {
                        cells: zero_border(
                            old(self)@.cells.update(y * old(self)@.n + x, clamped_unit(sum)),
                            old(self)@.n as int,
                        ),
                        ..old(self)@
                    })
                },
            x < old(self)@.n && y < old(self)@.n ==> border_is_zero(
                final(self)@.cells,
                final(self)@.n as int,
            ),
            !(x < old(self)@.n && y < old(self)@.n) ==> final(self)@ == old(self)@,
    {
        if x >= self.n || y >= self.n {
            return ;
        }
        proof {
            lemma_index(self.n as int, x as int, y as int);
        }
        let idx: usize = y * self.n + x;
        let sum = apply(eval, Op::Add, self.field[idx], value);
        self.field.set(idx, clamp_unit(sum));
        self.apply_dirichlet_bc();
        assert(clamped_unit(sum) == clamped_unit(sum));
    }

    /// Zeroes the border, once, after an initial condition has been loaded
    /// cell by cell.
    pub fn finalize_ic(&mut self)
        requires
            old(self).wf(),
        ensures
            final(self).wf(),
            final(self)@ == (SolverView {
                cells: zero_border(old(self)@.cells, old(self)@.n as int),
                ..old(self)@
            }),
            border_is_zero(final(self)@.cells, final(self)@.n as int),
    {
        self.apply_dirichlet_bc();
    }

    /// Advances the field by one macro interval under the run margin and
    /// returns the number of substeps taken and the interval.
    pub fn step_tau_run<E: Fn(Op, u32, u32) -> u32>(&mut self, eval: &E) -> (r: (u32, u32))
        requires
            old(self).wf(),
            total(eval),
        ensures
            final(self).wf(),
            is_step(eval, old(self)@.s_run, old(self)@, final(self)@, r.0, r.1),
            single_valued(eval) ==> is_only_step(
                eval,
                old(self)@.s_run,
                old(self)@,
                final(self)@,
                r.0,
                r.1,
            ),
            r.0 >= 1,
            border_is_zero(final(self)@.cells, final(self)@.n as int),
    {
        let s = self.s_run;
        let r = self.step_tau_with_s(s, eval);
        proof {
            lemma_step_bounds(eval, s, old(self)@, self@, r.0, r.1);
            if single_valued(eval) {
                lemma_only_step(eval, s, old(self)@, self@, r.0, r.1);
            }
        }
        r
    }

    /// Advances the field by one macro interval under the reference margin
    /// and returns the number of substeps taken and the interval.
    pub fn step_tau_ref<E: Fn(Op, u32, u32) -> u32>(&mut self, eval: &E) -> (r: (u32, u32))
        requires
            old(self).wf(),
            total(eval),
        ensures
            final(self).wf(),
            is_step(eval, old(self)@.s_ref, old(self)@, final(self)@, r.0, r.1),
            single_valued(eval) ==> is_only_step(
                eval,
                old(self)@.s_ref,
                old(self)@,
                final(self)@,
                r.0,
                r.1,
            ),
            r.0 >= 1,
            border_is_zero(final(self)@.cells, final(self)@.n as int),
    {
        let s = self.s_ref;
        let r = self.step_tau_with_s(s, eval);
        proof {
            lemma_step_bounds(eval, s, old(self)@, self@, r.0, r.1);
            if single_valued(eval) {
                lemma_only_step(eval, s, old(self)@, self@, r.0, r.1);
            }
        }
        r
    }

    /// Advances the field by one macro interval in the least number of
    /// equal substeps that the margin `s` allows.
    fn step_tau_with_s<E: Fn(Op, u32, u32) -> u32>(&mut self, s: u32, eval: &E) -> (r: (u32, u32))
        requires
            old(self).wf(),
            total(eval),
        ensures
            final(self).wf(),
            is_step(eval, s, old(self)@, final(self)@, r.0, r.1),
    {
        let dx2 = apply(eval, Op::Mul, self.dx, self.dx);
        let a4 = apply(eval, Op::Mul, FOUR, self.alpha);
        let dt_max = apply(eval, Op::Div, dx2, a4);
        let dt0 = apply(eval, Op::Mul, s, dt_max);
        let tau = self.get_tau(eval);
        let ratio = apply(eval, Op::Div, tau, dt0);
        let raw = apply(eval, Op::CeilCount, ratio, 0);
        let mut k: u32 = raw;
        if k < 1 {
            k = 1;
        }
        let kf = apply(eval, Op::FromCount, k, 0);
        let dt = apply(eval, Op::Div, tau, kf);
        assert(is_plan(eval, s, self@.dx, self@.alpha, tau, k, dt));
        let mut i: u32 = 0;
        while i < k
            invariant
                i <= k,
                self.wf(),
                total(eval),
                self@ == (SolverView { cells: self@.cells, ..old(self)@ }),
                advanced(
                    eval,
                    old(self)@.alpha,
                    old(self)@.dx,
                    dt,
                    old(self)@.n as int,
                    old(self)@.cells,
                    self@.cells,
                    i as nat,
                ),
            decreases k - i,
        {
            self.explicit_step(dt, eval);
            i += 1;
        }
        (k, tau)
    }

    /// One explicit substep of length `dt`: every interior cell is updated
    /// from the field as it was before the substep, then the border is
    /// zeroed.
    fn explicit_step<E: Fn(Op, u32, u32) -> u32>(&mut self, dt: u32, eval: &E)
        requires
            old(self).wf(),
            total(eval),
        ensures
            final(self).wf(),
            final(self)@ == (SolverView { cells: final(self)@.cells, ..old(self)@ }),
            is_substep(
                eval,
                old(self)@.alpha,
                old(self)@.dx,
                dt,
                old(self)@.n as int,
                old(self)@.cells,
                final(self)@.cells,
            ),
            border_is_zero(final(self)@.cells, final(self)@.n as int),
    {
        let n = self.n;
        let dx2 = apply(eval, Op::Mul, self.dx, self.dx);
        let a = apply(eval, Op::Mul, self.alpha, dt);
        let c = apply(eval, Op::Div, a, dx2);
        assert(is_coefficient(eval, self@.alpha, dt, self@.dx, c));
        let ghost side = n as int;
        let ghost before = self.field@;

        let mut y: usize = 1;
        while y < n - 1
            invariant
                n == self.n,
                side == n as int,
                side >= 3,
                side * side <= usize::MAX,
                1 <= y <= n - 1,
                total(eval),
                self.field@ == before,
                before.len() == side * side,
                self.next@.len() == side * side,
                self@ == old(self)@,
                forall|i: int| 0 <= i < side * side ==> unit_or_nan(#[trigger] self.next@[i]),
                forall|i: int|
                    0 <= i < side * side && !border_index(side, i) && row(side, i) < y
                        ==> cell_updated(eval, c, side, before, i, #[trigger] self.next@[i])
                        && unit_or_nan(self.next@[i]),
            decreases n - y,
        {
            proof {
                lemma_index(side, 0, y as int);
            }
            let r: usize = y * n;
            let mut x: usize = 1;
            while x < n - 1
                invariant
                    n == self.n,
                    side == n as int,
                    side >= 3,
                    side * side <= usize::MAX,
                    1 <= y < n - 1,
                    1 <= x <= n - 1,
                    r == y * n,
                    total(eval),
                    self.field@ == before,
                    before.len() == side * side,
                    self.next@.len() == side * side,
                    self@ == old(self)@,
                    forall|i: int| 0 <= i < side * side ==> unit_or_nan(#[trigger] self.next@[i]),
                    forall|i: int|
                        0 <= i < side * side && !border_index(side, i) && (row(side, i) < y || (row(
                            side,
                            i,
                        ) == y && col(side, i) < x)) ==> cell_updated(
                            eval,
                            c,
                            side,
                            before,
                            i,
                            #[trigger] self.next@[i],
                        ) && unit_or_nan(self.next@[i]),
                decreases n - x,
            {
                proof {
                    lemma_index(side, x as int, y as int);
                    lemma_index(side, x as int, y - 1);
                    lemma_index(side, x as int, y + 1);
                    assert((y - 1) * side + x == y * side + x - side) by (nonlinear_arith);
                    assert((y + 1) * side + x == y * side + x + side) by (nonlinear_arith);
                }
                let i: usize = r + x;
                let u = self.field[i];
                let up = self.field[i - n];
                let down = self.field[i + n];
                let left = self.field[i - 1];
                let right = self.field[i + 1];

                let s1 = apply(eval, Op::Add, up, down);
                let s2 = apply(eval, Op::Add, s1, left);
                let s3 = apply(eval, Op::Add, s2, right);
                let q = apply(eval, Op::Mul, FOUR, u);
                let lap = apply(eval, Op::Sub, s3, q);
                let d = apply(eval, Op::Mul, c, lap);
                let raw = apply(eval, Op::Add, u, d);
                let ghost prev = self.next@;
                self.next.set(i, clamp_unit(raw));
                proof {
                    assert(is_update(eval, c, u, up, down, left, right, raw));
                    assert(cell_updated(eval, c, side, before, i as int, self.next@[i as int]));
                    assert forall|j: int|
                        0 <= j < side * side && !border_index(side, j) && (row(side, j) < y || (row(
                            side,
                            j,
                        ) == y && col(side, j) < x + 1)) implies cell_updated(
                        eval,
                        c,
                        side,
                        before,
                        j,
                        #[trigger] self.next@[j],
                    ) && unit_or_nan(self.next@[j]) by {
                        lemma_col_row(side, j);
                        if j != i {
                            assert(self.next@[j] == prev[j]);
                            assert(row(side, j) < y || (row(side, j) == y && col(side, j) < x));
                        }
                    }
                }
                x += 1;
            }
            y += 1;
        }
        proof {
            self.lemma_wf_valid();
        }
        let ghost updated = self.next@;
        self.swap_buffers();
        self.apply_dirichlet_bc();
        proof {
            let after = self.field@;
            assert(after == zero_border(updated, side));
            assert forall|i: int| 0 <= i < before.len() implies if border_index(side, i) {
                #[trigger] after[i] == ZERO
            } else {
                cell_updated(eval, c, side, before, i, after[i])
            } by {
                lemma_col_row(side, i);
            }
            assert(is_substep(eval, old(self)@.alpha, old(self)@.dx, dt, side, before, after));
        }
    }

    /// Makes the scratch buffer the field and clears the old field for the
    /// next substep.
    fn swap_buffers(&mut self)
        requires
            old(self).next@.len() == old(self).field@.len(),
        ensures
            final(self).field@ == old(self).next@,
            final(self).next@ == Seq::new(old(self).field@.len(), |i: int| ZERO),
            final(self).n == old(self).n,
            final(self).alpha == old(self).alpha,
            final(self).mu == old(self).mu,
            final(self).s_run == old(self).s_run,
            final(self).s_ref == old(self).s_ref,
            final(self).dx == old(self).dx,
    {
        std::mem::swap(&mut self.field, &mut self.next);
        fill_zero(&mut self.next);
    }

    /// Sets the first and last row and the first and last column to zero.
    fn apply_dirichlet_bc(&mut self)
        requires
            old(self).wf(),
        ensures
            final(self).wf(),
            final(self)@ == (SolverView {
                cells: zero_border(old(self)@.cells, old(self)@.n as int),
                ..old(self)@
            }),
            border_is_zero(final(self)@.cells, final(self)@.n as int),
            final(self).next@ == old(self).next@,
    {
        let n = self.n;
        let ghost before = self.field@;
        let ghost side = n as int;
        let mut x: usize = 0;
        while x < n
            invariant
                n == self.n,
                side == n as int,
                side >= 3,
                side * side <= usize::MAX,
                x <= n,
                self.field@.len() == side * side,
                before.len() == side * side,
                self@ == (SolverView { cells: self.field@, ..old(self)@ }),
                self.next@ == old(self).next@,
                forall|i: int|
                    0 <= i < side * side ==> #[trigger] self.field@[i] == if (row(side, i) == 0
                        || row(side, i) == side - 1) && col(side, i) < x {
                        ZERO
                    } else {
                        before[i]
                    },
            decreases n - x,
        {
            proof {
                lemma_index(side, x as int, 0);
                lemma_index(side, x as int, side - 1);
            }
            let ghost prev = self.field@;
            self.field.set(x, ZERO);
            self.field.set((n - 1) * n + x, ZERO);
            proof {
                assert forall|i: int| 0 <= i < side * side implies #[trigger] self.field@[i] == if (
                row(side, i) == 0 || row(side, i) == side - 1) && col(side, i) < x + 1 {
                    ZERO
                } else {
                    before[i]
                } by {
                    lemma_col_row(side, i);
                    assert(prev[i] == if (row(side, i) == 0 || row(side, i) == side - 1) && col(
                        side,
                        i,
                    ) < x {
                        ZERO
                    } else {
                        before[i]
                    });
                    if row(side, i) == 0 && col(side, i) == x {
                        assert(i == x);
                    }
                    if row(side, i) == side - 1 && col(side, i) == x {
                        assert(i == (side - 1) * side + x);
                    }
                }
            }
            x += 1;
        }
        let ghost rows_done = self.field@;
        let mut y: usize = 0;
        while y < n
            invariant
                n == self.n,
                side == n as int,
                side >= 3,
                side * side <= usize::MAX,
                y <= n,
                self.field@.len() == side * side,
                rows_done.len() == side * side,
                self@ == (SolverView { cells: self.field@, ..old(self)@ }),
                self.next@ == old(self).next@,
                forall|i: int|
                    0 <= i < side * side ==> #[trigger] self.field@[i] == if (col(side, i) == 0
                        || col(side, i) == side - 1) && row(side, i) < y {
                        ZERO
                    } else {
                        rows_done[i]
                    },
            decreases n - y,
        {
            proof {
                lemma_index(side, 0, y as int);
                lemma_index(side, side - 1, y as int);
            }
            let ghost prev = self.field@;
            self.field.set(y * n, ZERO);
            self.field.set(y * n + (n - 1), ZERO);
            proof {
                assert forall|i: int| 0 <= i < side * side implies #[trigger] self.field@[i] == if (
                col(side, i) == 0 || col(side, i) == side - 1) && row(side, i) < y + 1 {
                    ZERO
                } else {
                    rows_done[i]
                } by {
                    lemma_col_row(side, i);
                    assert(prev[i] == if (col(side, i) == 0 || col(side, i) == side - 1) && row(
                        side,
                        i,
                    ) < y {
                        ZERO
                    } else {
                        rows_done[i]
                    });
                    if col(side, i) == 0 && row(side, i) == y {
                        assert(i == y * side);
                    }
                    if col(side, i) == side - 1 && row(side, i) == y {
                        assert(i == y * side + (side - 1));
                    }
                }
            }
            y += 1;
        }
        proof {
            assert forall|i: int| 0 <= i < side * side implies self.field@[i] == zero_border(
                before,
                side,
            )[i] by {
                lemma_col_row(side, i);
            }
            assert(self.field@ =~= zero_border(before, side));
            crate::grid::lemma_zero_border(before, side);
        }
    }
}

} // verus!
