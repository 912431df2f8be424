//! Trajectories and samples: from a configuration and a base seed to pairs
//! of fields, each with the record of how it was made.

use vstd::prelude::*;
use vstd::bytes::{spec_u32_to_le_bytes, u32_to_le_bytes};
use rand_chacha::ChaCha8Rng;
use crate::arith::{accepts, draw, draws, total, Op};
use crate::grid::{border_is_zero, lemma_index, zero_border};
use crate::ic::{generate_ic, is_ic, sample_ic_type, sampler_ready, IcType};
use crate::mu_set::{
    admissible, ascending, entries, fails_at, lemma_sorted_set, parse_mu_set, read_as, reads_all,
    sorted_set, MuSetError,
};
use crate::random::{choose_one, seeded};
use crate::single::{clamped, clamped_unit, larger, less, lt, nan, unit_or_nan, ZERO};
use crate::solver::{
    is_spacing, is_step, SolverCore, SolverView, ALPHA_FLOOR, DEFAULT_S_RUN, MARGIN_MAX, MARGIN_MIN,
};

verus! {

/// The odd constant that spreads trajectory indices over the seeds.
pub const SEED_MIX: u64 = 0x9E37_79B9_7F4A_7C15;

/// The inverse of `SEED_MIX` modulo two to the 64.
pub const SEED_UNMIX: u64 = 0xF1DE_83E1_9937_733D;

/// `x` times `SEED_MIX`, modulo two to the 64.
pub open spec fn mixed(x: u64) -> u64 {
    ((x * SEED_MIX) % 0x1_0000_0000_0000_0000) as u64
}

/// The seed of the trajectory `traj_idx` under the base seed `base`: the
/// base seed, exclusive-or the mixed index.
pub open spec fn trajectory_seed(base: u64, traj_idx: usize) -> u64 {
    base ^ mixed(traj_idx as u64)
}

/// The seed of one trajectory.
pub fn traj_seed(base_seed: u64, traj_idx: usize) -> (seed: u64)
    ensures
        seed == trajectory_seed(base_seed, traj_idx),
{
    base_seed ^ (traj_idx as u64).wrapping_mul(SEED_MIX)
}

/// Mixing is undone by multiplying with `SEED_UNMIX`.
pub proof fn lemma_unmix(x: u64)
    by (bit_vector)
    ensures
        ((mixed(x) * SEED_UNMIX) % 0x1_0000_0000_0000_0000) as u64 == x,
{
}

/// Exclusive-or with one value keeps different values different.
pub proof fn lemma_xor_cancel(a: u64, b: u64, c: u64)
    by (bit_vector)
    requires
        a ^ b == a ^ c,
    ensures
        b == c,
{
}

/// Under one base seed, different trajectories have different seeds.
pub proof fn lemma_seeds_differ(base: u64, i: usize, j: usize)
    requires
        i != j,
    ensures
        trajectory_seed(base, i) != trajectory_seed(base, j),
{
    if trajectory_seed(base, i) == trajectory_seed(base, j) {
        lemma_xor_cancel(base, mixed(i as u64), mixed(j as u64));
        lemma_unmix(i as u64);
        lemma_unmix(j as u64);
    }
}

/// The bytes of a field as it is stored: four for each cell, the least
/// significant first, cell after cell.
pub open spec fn field_bytes(cells: Seq<u32>) -> Seq<u8>
    decreases cells.len(),
{
    if cells.len() == 0 {
        Seq::empty()
    } else {
        field_bytes(cells.drop_last()) + spec_u32_to_le_bytes(cells.last())
    }
}

/// A stored field takes four bytes for each cell.
pub proof fn lemma_field_bytes_len(cells: Seq<u32>)
    ensures
        field_bytes(cells).len() == 4 * cells.len(),
    decreases cells.len(),
{
    vstd::bytes::lemma_auto_spec_u32_to_from_le_bytes();
    if cells.len() > 0 {
        lemma_field_bytes_len(cells.drop_last());
    }
}

/// In a stored field the cell `i` stands at the bytes `4 * i` to
/// `4 * i + 3`.
pub proof fn lemma_field_bytes_at(cells: Seq<u32>, i: int)
    requires
        0 <= i < cells.len(),
    ensures
        field_bytes(cells).len() == 4 * cells.len(),
        field_bytes(cells).subrange(4 * i, 4 * i + 4) == spec_u32_to_le_bytes(cells[i]),
    decreases cells.len(),
{
    vstd::bytes::lemma_auto_spec_u32_to_from_le_bytes();
    lemma_field_bytes_len(cells);
    let init = cells.drop_last();
    lemma_field_bytes_len(init);
    if i < cells.len() - 1 {
        lemma_field_bytes_at(init, i);
        assert(field_bytes(cells).subrange(4 * i, 4 * i + 4) =~= field_bytes(init).subrange(
            4 * i,
            4 * i + 4,
        ));
    } else {
        assert(field_bytes(cells).subrange(4 * i, 4 * i + 4) =~= spec_u32_to_le_bytes(cells.last()));
    }
}

/// Appends the bytes of a field to `w`.
pub fn write_f32_vec(w: &mut Vec<u8>, v: &[u32])
    ensures
        final(w)@ == old(w)@ + field_bytes(v@),
{
    let mut i: usize = 0;
    while i < v.len()
        invariant
            i <= v@.len(),
            w@ == old(w)@ + field_bytes(v@.take(i as int)),
        decreases v@.len() - i,
    {
        let mut bytes = u32_to_le_bytes(v[i]);
        proof {
            assert(v@.take(i + 1).drop_last() =~= v@.take(i as int));
            assert(old(w)@ + field_bytes(v@.take(i + 1)) =~= w@ + bytes@);
        }
        w.append(&mut bytes);
        i += 1;
    }
    proof {
        assert(v@.take(v@.len() as int) =~= v@);
    }
}

/// Why a run is refused.
#[derive(Clone, Copy, Debug, PartialEq, Eq)]
pub enum ConfigError {
    /// The upper end of the diffusivity range is not above the lower end.
    EmptyAlphaRange,
    /// An entry of the list of jump sizes is not a number in decimal
    /// notation.
    MalformedMu,
    /// A jump size is below zero or a NaN.
    InvalidMu,
    /// There is no jump size to draw from.
    EmptyMuSet,
    /// The grid has no interior: its side is below 3.
    GridTooSmall,
}

impl ConfigError {
    /// What is said of the fault.
    pub open spec fn text(self) -> Seq<char> {
        match self {
            ConfigError::EmptyAlphaRange => "alpha_max must be > alpha_min"@,
            ConfigError::MalformedMu => "invalid float literal"@,
            ConfigError::InvalidMu => "mu_set cannot contain negative values"@,
            ConfigError::EmptyMuSet => "mu_set parsed to empty set"@,
            ConfigError::GridTooSmall => "SolverCore::new: n must be >= 3"@,
        }
    }

    /// What is said of the fault.
    pub fn message(&self) -> (s: &'static str)
        ensures
            s@ == self.text(),
    {
        match self {
            ConfigError::EmptyAlphaRange => "alpha_max must be > alpha_min",
            ConfigError::MalformedMu => "invalid float literal",
            ConfigError::InvalidMu => "mu_set cannot contain negative values",
            ConfigError::EmptyMuSet => "mu_set parsed to empty set",
            ConfigError::GridTooSmall => "SolverCore::new: n must be >= 3",
        }
    }
}

/// What a run is made from.
pub struct Config {
    /// The label copied into every record.
    pub split: String,
    /// The side of the grid.
    pub n: usize,
    /// The index of the first trajectory.
    pub traj_start: usize,
    /// The number of trajectories.
    pub traj_count: usize,
    /// The number of samples taken from each trajectory.
    pub t_steps: usize,
    /// The diffusivity of a trajectory is drawn from
    /// `alpha_min..alpha_max`.
    pub alpha_min: u32,
    pub alpha_max: u32,
    /// The jump size of a step is drawn from these.
    pub mu_values: Vec<u32>,
    /// The stability margin under which targets are computed.
    pub s_ref: u32,
    /// The base seed.
    pub seed: u64,
}

/// The record of one sample.
pub struct SampleMeta {
    pub global_sample_idx: u64,
    pub split: String,
    pub traj_idx: usize,
    pub step_idx: usize,
    pub base_seed: u64,
    pub traj_seed: u64,
    pub n: usize,
    pub dx: u32,
    pub alpha: u32,
    pub mu: u32,
    pub tau: u32,
    pub s_ref: u32,
    pub k_used_ref: u32,
    pub ic_type: IcType,
}

/// One sample: the field before a step, the field after it, and the
/// record.
pub struct Sample {
    pub input: Vec<u32>,
    pub target: Vec<u32>,
    pub meta: SampleMeta,
}

/// Whether every value may be a jump size.
pub open spec fn all_admissible(values: Seq<u32>) -> bool {
    forall|i: int| 0 <= i < values.len() ==> admissible(#[trigger] values[i])
}

impl Config {
    /// The first fault of the configuration, if it has one: the range of
    /// diffusivities, then the jump sizes, then the grid.
    pub open spec fn fault(&self) -> Option<ConfigError> {
        if !less(self.alpha_min, self.alpha_max) {
            Some(ConfigError::EmptyAlphaRange)
        } else if !all_admissible(self.mu_values@) {
            Some(ConfigError::InvalidMu)
        } else if self.mu_values@.len() == 0 {
            Some(ConfigError::EmptyMuSet)
        } else if self.n < 3 {
            Some(ConfigError::GridTooSmall)
        } else {
            None
        }
    }

    /// The run fits the machine: the field in memory, the trajectory
    /// indices in `usize`, the sample indices in `u64`.
    pub open spec fn fits(&self) -> bool {
        &&& self.n * self.n <= usize::MAX
        &&& self.traj_start + self.traj_count <= usize::MAX
        &&& self.traj_count * self.t_steps <= u64::MAX
    }

    /// Tests whether the run fits the machine.
    pub fn fits_machine(&self) -> (r: bool)
        ensures
            r == self.fits(),
    {
        let cells = self.n.checked_mul(self.n);
        let last = self.traj_start.checked_add(self.traj_count);
        let samples = (self.traj_count as u64).checked_mul(self.t_steps as u64);
        cells.is_some() && last.is_some() && samples.is_some()
    }

    /// Checks the configuration before anything is computed or written.
    pub fn validate(&self) -> (r: Result<(), ConfigError>)
        ensures
            r == match self.fault() {
                Some(e) => Err::<(), ConfigError>(e),
                None => Ok::<(), ConfigError>(()),
            },
    {
        if !lt(self.alpha_min, self.alpha_max) {
            return Err(ConfigError::EmptyAlphaRange);
        }
        let mut i: usize = 0;
        while i < self.mu_values.len()
            invariant
                i <= self.mu_values@.len(),
                less(self.alpha_min, self.alpha_max),
                forall|j: int| 0 <= j < i ==> admissible(#[trigger] self.mu_values@[j]),
            decreases self.mu_values@.len() - i,
        {
            let v = self.mu_values[i];
            if nan(v) || lt(v, ZERO) {
                assert(!admissible(self.mu_values@[i as int]));
                return Err(ConfigError::InvalidMu);
            }
            i += 1;
        }
        if self.mu_values.len() == 0 {
            return Err(ConfigError::EmptyMuSet);
        }
        if self.n < 3 {
            return Err(ConfigError::GridTooSmall);
        }
        Ok(())
    }
}

/// The fault of a run that a fault of its list of jump sizes is.
pub open spec fn fault_of(e: MuSetError) -> ConfigError {
    match e {
        MuSetError::Malformed => ConfigError::MalformedMu,
        MuSetError::Negative => ConfigError::InvalidMu,
        MuSetError::NotANumber => ConfigError::InvalidMu,
        MuSetError::Empty => ConfigError::EmptyMuSet,
    }
}

/// Makes a configuration from its parts, the jump sizes given as a
/// comma-separated list, and checks it: first the range of
/// diffusivities, then the list, then the grid.
pub fn configure<P: Fn(&str) -> Option<u32>>(
    split: String,
    n: usize,
    traj_start: usize,
    traj_count: usize,
    t_steps: usize,
    alpha_min: u32,
    alpha_max: u32,
    mu_set: &str,
    s_ref: u32,
    seed: u64,
    read: &P,
) -> (r: Result<Config, ConfigError>)
    requires
        reads_all(read),
    ensures
        !less(alpha_min, alpha_max) ==> r == Err::<Config, ConfigError>(ConfigError::EmptyAlphaRange),
        less(alpha_min, alpha_max) && entries(mu_set@).len() == 0 ==> r == Err::<Config, ConfigError>(
            ConfigError::EmptyMuSet,
        ),
        r matches Ok(cfg) ==> {
            &&& cfg.fault() is None
            &&& cfg.split@ == split@
            &&& cfg.n == n
            &&& cfg.traj_start == traj_start
            &&& cfg.traj_count == traj_count
            &&& cfg.t_steps == t_steps
            &&& cfg.alpha_min == alpha_min
            &&& cfg.alpha_max == alpha_max
            &&& cfg.s_ref == s_ref
            &&& cfg.seed == seed
            &&& ascending(cfg.mu_values@)
            &&& exists|values: Seq<u32>|
                #[trigger] read_as(read, entries(mu_set@), values) && cfg.mu_values@ == sorted_set(
                    values,
                )
        },
        r matches Err(e) ==> {
            ||| e == ConfigError::EmptyAlphaRange && !less(alpha_min, alpha_max)
            ||| e == ConfigError::EmptyMuSet && less(alpha_min, alpha_max) && entries(mu_set@).len() == 0
            ||| e == ConfigError::GridTooSmall && less(alpha_min, alpha_max) && n < 3
            ||| less(alpha_min, alpha_max) && exists|j: int, m: MuSetError|
                #[trigger] fails_at(read, entries(mu_set@), j, m) && fault_of(m) == e
        },
{
    if !lt(alpha_min, alpha_max) {
        return Err(ConfigError::EmptyAlphaRange);
    }
    let mu_values = match parse_mu_set(mu_set, read) {
        Ok(set) => set,
        Err(MuSetError::Malformed) => {
            return Err(ConfigError::MalformedMu);
        },
        Err(MuSetError::Negative) => {
            return Err(ConfigError::InvalidMu);
        },
        Err(MuSetError::NotANumber) => {
            return Err(ConfigError::InvalidMu);
        },
        Err(MuSetError::Empty) => {
            return Err(ConfigError::EmptyMuSet);
        },
    };
    if n < 3 {
        return Err(ConfigError::GridTooSmall);
    }
    proof {
        assert forall|i: int| 0 <= i < mu_values@.len() implies admissible(#[trigger] mu_values@[i]) by {
            let values = choose|values: Seq<u32>|
                #[trigger] read_as(read, entries(mu_set@), values) && mu_values@ == sorted_set(values);
            lemma_sorted_set(values);
            assert(values.contains(mu_values@[i]));
        }
    }
    Ok(
        Config {
            split,
            n,
            traj_start,
            traj_count,
            t_steps,
            alpha_min,
            alpha_max,
            mu_values,
            s_ref,
            seed,
        },
    )
}

/// The field that loading `field` into a solver of side `n` leaves: every
/// cell limited to `[0, 1]`, then the border zeroed.
pub open spec fn loaded(field: Seq<u32>, n: int) -> Seq<u32> {
    zero_border(Seq::new(field.len(), |i: int| clamped_unit(field[i])), n)
}

/// Loads an initial condition into the solver, cell by cell, and zeroes
/// the border.
pub fn load_ic(solver: &mut SolverCore, field: &Vec<u32>)
    requires
        old(solver).wf(),
        field@.len() == old(solver)@.n * old(solver)@.n,
    ensures
        final(solver).wf(),
        final(solver)@ == (SolverView {
            cells: loaded(field@, old(solver)@.n as int),
            ..old(solver)@
        }),
        border_is_zero(final(solver)@.cells, final(solver)@.n as int),
{
    let n = solver.n();
    let ghost side = n as int;
    proof {
        solver.lemma_wf_valid();
    }
    let mut y: usize = 0;
    while y < n
        invariant
            y <= n,
            side == n as int,
            side * side <= usize::MAX,
            solver.wf(),
            field@.len() == side * side,
            solver@ == (SolverView { cells: solver@.cells, ..old(solver)@ }),
            solver@.n == n,
            solver@.cells.len() == side * side,
            forall|i: int| 0 <= i < y * side ==> #[trigger] solver@.cells[i] == clamped_unit(field@[i]),
        decreases n - y,
    {
        let mut x: usize = 0;
        while x < n
            invariant
                y < n,
                x <= n,
                side == n as int,
                side * side <= usize::MAX,
                solver.wf(),
                field@.len() == side * side,
                solver@ == (SolverView { cells: solver@.cells, ..old(solver)@ }),
                solver@.n == n,
                solver@.cells.len() == side * side,
                forall|i: int|
                    0 <= i < y * side + x ==> #[trigger] solver@.cells[i] == clamped_unit(field@[i]),
            decreases n - x,
        {
            proof {
                lemma_index(side, x as int, y as int);
            }
            solver.set_cell(x, y, field[y * n + x]);
            x += 1;
        }
        proof {
            assert(y * side + side == (y + 1) * side) by (nonlinear_arith);
        }
        y += 1;
    }
    proof {
        assert(solver@.cells =~= Seq::new(field@.len(), |i: int| clamped_unit(field@[i])));
    }
    solver.finalize_ic();
}

/// Whether `s` is a sample that a trajectory of the run may emit at step
/// `step` as its record says: the fields have the size of the grid, a
/// zero border and cells that are each a NaN or within `[0, 1]`, and the
/// target is what one reference step may make of the input.
pub open spec fn sample_ok<E: Fn(Op, u32, u32) -> u32>(
    eval: &E,
    cfg: &Config,
    local_traj: int,
    step: int,
    s: &Sample,
) -> bool {
    &&& s.meta.global_sample_idx == local_traj * cfg.t_steps + step
    &&& s.meta.split@ == cfg.split@
    &&& s.meta.traj_idx == cfg.traj_start + local_traj
    &&& s.meta.step_idx == step
    &&& s.meta.base_seed == cfg.seed
    &&& s.meta.traj_seed == trajectory_seed(cfg.seed, s.meta.traj_idx)
    &&& s.meta.n == cfg.n
    &&& is_spacing(eval, cfg.n as nat, s.meta.dx)
    &&& s.meta.s_ref == cfg.s_ref
    &&& s.meta.k_used_ref >= 1
    &&& cfg.mu_values@.contains(s.meta.mu)
    &&& s.input@.len() == cfg.n * cfg.n
    &&& s.target@.len() == cfg.n * cfg.n
    &&& border_is_zero(s.input@, cfg.n as int)
    &&& border_is_zero(s.target@, cfg.n as int)
    &&& forall|i: int| 0 <= i < s.input@.len() ==> unit_or_nan(#[trigger] s.input@[i])
    &&& forall|i: int| 0 <= i < s.target@.len() ==> unit_or_nan(#[trigger] s.target@[i])
    &&& is_step(
        eval,
        clamped(cfg.s_ref, MARGIN_MIN, MARGIN_MAX),
        SolverView {
            n: cfg.n as nat,
            alpha: larger(s.meta.alpha, ALPHA_FLOOR),
            mu: larger(s.meta.mu, ZERO),
            s_run: DEFAULT_S_RUN,
            s_ref: clamped(cfg.s_ref, MARGIN_MIN, MARGIN_MAX),
            dx: s.meta.dx,
            cells: s.input@,
        },
        SolverView {
            n: cfg.n as nat,
            alpha: larger(s.meta.alpha, ALPHA_FLOOR),
            mu: larger(s.meta.mu, ZERO),
            s_run: DEFAULT_S_RUN,
            s_ref: clamped(cfg.s_ref, MARGIN_MIN, MARGIN_MAX),
            dx: s.meta.dx,
            cells: s.target@,
        },
        s.meta.k_used_ref,
        s.meta.tau,
    )
}

/// Whether `samples` are what the trajectory `local_traj` of the run may
/// emit: one sample for each step, in order, all under one diffusivity
/// drawn from the configured range and from one initial condition; the
/// first starts from that initial condition as a solver holds it, each
/// other where the one before it ended.
pub open spec fn trajectory_ok<E: Fn(Op, u32, u32) -> u32, S: Fn(&mut ChaCha8Rng, u32, u32) -> u32>(
    eval: &E,
    sample: &S,
    cfg: &Config,
    local_traj: int,
    samples: Seq<Sample>,
) -> bool {
    &&& samples.len() == cfg.t_steps
    &&& forall|k: int| 0 <= k < samples.len() ==> sample_ok(eval, cfg, local_traj, k, &#[trigger] samples[k])
    &&& forall|k: int|
        0 <= k < samples.len() - 1 ==> (#[trigger] samples[k + 1]).input@ == samples[k].target@
    &&& forall|k: int|
        0 <= k < samples.len() ==> (#[trigger] samples[k]).meta.alpha == samples[0].meta.alpha
            && samples[k].meta.ic_type == samples[0].meta.ic_type && samples[k].meta.dx
            == samples[0].meta.dx
    &&& samples.len() > 0 ==> {
        &&& draws(sample, cfg.alpha_min, cfg.alpha_max, samples[0].meta.alpha)
        &&& exists|start: Seq<u32>|
            #![trigger is_ic(eval, sample, cfg.n as int, samples[0].meta.ic_type, start)]
            is_ic(eval, sample, cfg.n as int, samples[0].meta.ic_type, start) && samples[0].input@
                == loaded(start, cfg.n as int)
    }
}

/// Runs one trajectory: seeds its stream, draws its diffusivity and its
/// initial condition, and takes `t_steps` reference steps, each under a
/// jump size drawn anew, emitting the field before and after each.
pub fn run_trajectory<E: Fn(Op, u32, u32) -> u32, S: Fn(&mut ChaCha8Rng, u32, u32) -> u32>(
    cfg: &Config,
    local_traj: usize,
    eval: &E,
    sample: &S,
) -> (samples: Vec<Sample>)
    requires
        cfg.fault() is None,
        cfg.fits(),
        local_traj < cfg.traj_count,
        total(eval),
        sampler_ready(sample),
        accepts(sample, cfg.alpha_min, cfg.alpha_max),
    ensures
        trajectory_ok(eval, sample, cfg, local_traj as int, samples@),
{
    let n = cfg.n;
    let traj_idx: usize = cfg.traj_start + local_traj;
    let seed = traj_seed(cfg.seed, traj_idx);
    let mut rng = seeded(seed);
    let alpha = draw(sample, &mut rng, cfg.alpha_min, cfg.alpha_max);
    let ic_t = sample_ic_type(&mut rng);
    let ic_field = generate_ic(&mut rng, n, ic_t, eval, sample);
    let made = SolverCore::new(n, eval);
    let mut s = made.unwrap();
    s.set_alpha(alpha);
    s.set_s_ref(cfg.s_ref);
    load_ic(&mut s, &ic_field);
    let dx = s.get_dx();

    proof {
        assert(local_traj * cfg.t_steps + cfg.t_steps <= cfg.traj_count * cfg.t_steps)
            by (nonlinear_arith)
            requires
                local_traj < cfg.traj_count,
                0 <= cfg.t_steps,
        ;
    }
    let first: u64 = (local_traj as u64) * (cfg.t_steps as u64);
    let mut samples: Vec<Sample> = Vec::new();
    let mut step_idx: usize = 0;
    while step_idx < cfg.t_steps
        invariant
            step_idx <= cfg.t_steps,
            cfg.fault() is None,
            cfg.fits(),
            n == cfg.n,
            total(eval),
            first == local_traj * cfg.t_steps,
            first + cfg.t_steps <= u64::MAX,
            traj_idx == cfg.traj_start + local_traj,
            seed == trajectory_seed(cfg.seed, traj_idx),
            s.wf(),
            s@.n == n,
            s@.alpha == larger(alpha, ALPHA_FLOOR),
            s@.s_ref == clamped(cfg.s_ref, MARGIN_MIN, MARGIN_MAX),
            s@.s_run == DEFAULT_S_RUN,
            s@.dx == dx,
            is_spacing(eval, n as nat, dx),
            s@.cells.len() == n * n,
            border_is_zero(s@.cells, n as int),
            samples@.len() == step_idx,
            forall|k: int|
                0 <= k < samples@.len() ==> sample_ok(eval, cfg, local_traj as int, k, &#[trigger] samples@[k]),
            forall|k: int|
                0 <= k < samples@.len() - 1 ==> (#[trigger] samples@[k + 1]).input@
                    == samples@[k].target@,
            forall|k: int|
                0 <= k < samples@.len() ==> (#[trigger] samples@[k]).meta.alpha == alpha
                    && samples@[k].meta.ic_type == ic_t && samples@[k].meta.dx == dx,
            samples@.len() > 0 ==> samples@[samples@.len() - 1].target@ == s@.cells,
            samples@.len() == 0 ==> s@.cells == loaded(ic_field@, n as int),
            samples@.len() > 0 ==> samples@[0].input@ == loaded(ic_field@, n as int),
        decreases cfg.t_steps - step_idx,
    {
        let drawn = choose_one(&cfg.mu_values, &mut rng);
        let mu = drawn.unwrap();
        s.set_mu(mu);
        proof {
            s.lemma_wf_valid();
        }
        let u_in = s.clone_field();
        let ghost before = s@;
        let (k_used, tau_val) = s.step_tau_ref(eval);
        proof {
            s.lemma_wf_valid();
        }
        let u_out = s.clone_field();
        let row = Sample {
            input: u_in,
            target: u_out,
            meta: SampleMeta {
                global_sample_idx: first + step_idx as u64,
                split: cfg.split.clone(),
                traj_idx,
                step_idx,
                base_seed: cfg.seed,
                traj_seed: seed,
                n,
                dx,
                alpha,
                mu,
                tau: tau_val,
                s_ref: cfg.s_ref,
                k_used_ref: k_used,
                ic_type: ic_t,
            },
        };
        proof {
            assert(before == (SolverView {
                n: cfg.n as nat,
                alpha: larger(alpha, ALPHA_FLOOR),
                mu: larger(mu, ZERO),
                s_run: DEFAULT_S_RUN,
                s_ref: clamped(cfg.s_ref, MARGIN_MIN, MARGIN_MAX),
                dx: dx,
                cells: row.input@,
            }));
            assert(s@ == (SolverView { cells: row.target@, ..before }));
            assert(sample_ok(eval, cfg, local_traj as int, step_idx as int, &row));
        }
        let ghost prior = samples@;
        samples.push(row);
        proof {
            assert forall|k: int| 0 <= k < samples@.len() implies sample_ok(
                eval,
                cfg,
                local_traj as int,
                k,
                &#[trigger] samples@[k],
            ) by {
                if k < prior.len() {
                    assert(samples@[k] == prior[k]);
                }
            }
            assert forall|k: int| 0 <= k < samples@.len() - 1 implies (#[trigger] samples@[k
                + 1]).input@ == samples@[k].target@ by {
                if k + 1 < prior.len() {
                    assert(samples@[k + 1] == prior[k + 1]);
                    assert(samples@[k] == prior[k]);
                } else {
                    assert(samples@[k] == prior[k]);
                }
            }
        }
        step_idx += 1;
    }
    samples
}

/// Whether `samples` are what the first `count` trajectories of the run
/// may emit: the samples of each trajectory in order, trajectory after
/// trajectory, so that the sample at position `k` has the global index
/// `k`.
pub open spec fn emitted_ok<E: Fn(Op, u32, u32) -> u32, S: Fn(&mut ChaCha8Rng, u32, u32) -> u32>(
    eval: &E,
    sample: &S,
    cfg: &Config,
    count: int,
    samples: Seq<Sample>,
) -> bool {
    &&& samples.len() == count * cfg.t_steps
    &&& forall|k: int| 0 <= k < samples.len() ==> (#[trigger] samples[k]).meta.global_sample_idx == k
    &&& forall|t: int|
        0 <= t < count ==> trajectory_ok(
            eval,
            sample,
            cfg,
            t,
            #[trigger] samples.subrange(t * cfg.t_steps, (t + 1) * cfg.t_steps),
        )
}

/// Runs every trajectory of the configuration, from the first to the
/// last, and returns the samples in the order in which they are emitted.
///
/// A faulty configuration is refused before anything is computed, and
/// nothing else fails. With `traj_count` trajectories of `t_steps` steps,
/// the run emits exactly `traj_count * t_steps` samples, and their global
/// indices are `0, 1, 2, ...` in that order.
pub fn run<E: Fn(Op, u32, u32) -> u32, S: Fn(&mut ChaCha8Rng, u32, u32) -> u32>(
    cfg: &Config,
    eval: &E,
    sample: &S,
) -> (r: Result<Vec<Sample>, ConfigError>)
    requires
        cfg.fits(),
        total(eval),
        sampler_ready(sample),
        accepts(sample, cfg.alpha_min, cfg.alpha_max),
    ensures
        cfg.fault() matches Some(e) ==> r == Err::<Vec<Sample>, ConfigError>(e),
        cfg.fault() is None ==> r is Ok,
        r matches Ok(samples) ==> emitted_ok(eval, sample, cfg, cfg.traj_count as int, samples@),
{
    match cfg.validate() {
        Err(e) => {
            return Err(e);
        },
        Ok(_) => {},
    }
    let mut all: Vec<Sample> = Vec::new();
    let mut local_traj: usize = 0;
    proof {
        assert(0 * cfg.t_steps == 0) by (nonlinear_arith);
    }
    while local_traj < cfg.traj_count
        invariant
            local_traj <= cfg.traj_count,
            cfg.fault() is None,
            cfg.fits(),
            total(eval),
            sampler_ready(sample),
            accepts(sample, cfg.alpha_min, cfg.alpha_max),
            emitted_ok(eval, sample, cfg, local_traj as int, all@),
        decreases cfg.traj_count - local_traj,
    {
        let mut samples = run_trajectory(cfg, local_traj, eval, sample);
        let ghost before = all@;
        let ghost fresh = samples@;
        let ghost steps = cfg.t_steps as int;
        let ghost t0 = local_traj as int;
        all.append(&mut samples);
        proof {
            assert(t0 * steps + steps == (t0 + 1) * steps) by (nonlinear_arith);
            assert(all@ =~= before + fresh);
            assert forall|k: int| 0 <= k < all@.len() implies (#[trigger] all@[k]).meta.global_sample_idx
                == k by {
                if k < before.len() {
                    assert(all@[k] == before[k]);
                } else {
                    assert(all@[k] == fresh[k - before.len()]);
                    assert(sample_ok(eval, cfg, t0, k - before.len(), &fresh[k - before.len()]));
                }
            }
            assert forall|t: int| 0 <= t < t0 + 1 implies trajectory_ok(
                eval,
                sample,
                cfg,
                t,
                #[trigger] all@.subrange(t * steps, (t + 1) * steps),
            ) by {
                if t < t0 {
                    assert((t + 1) * steps <= t0 * steps) by (nonlinear_arith)
                        requires
                            t + 1 <= t0,
                            0 <= steps,
                    ;
                    assert(0 <= t * steps) by (nonlinear_arith)
                        requires
                            0 <= t,
                            0 <= steps,
                    ;
                    assert(t * steps <= (t + 1) * steps) by (nonlinear_arith)
                        requires
                            0 <= steps,
                    ;
                    assert(all@.subrange(t * steps, (t + 1) * steps) =~= before.subrange(
                        t * steps,
                        (t + 1) * steps,
                    ));
                } else {
                    assert(all@.subrange(t * steps, (t + 1) * steps) =~= fresh);
                }
            }
        }
        local_traj += 1;
    }
    Ok(all)
}

} // verus!
