use diffusion_solver::arith::Op;
use diffusion_solver::ic::{ic_type_from_draw, IcType};
use diffusion_solver::pipeline::{
    configure, load_ic, run, run_trajectory, traj_seed, write_f32_vec, Config, ConfigError, Sample, SEED_MIX,
    SEED_UNMIX,
};
use diffusion_solver::solver::SolverCore;
use rand::seq::SliceRandom;
use rand::Rng;
use rand::SeedableRng;
use rand_chacha::ChaCha8Rng;

fn machine(op: Op, a: u32, b: u32) -> u32 {
    let x = f32::from_bits(a);
    let y = f32::from_bits(b);
    match op {
        Op::Add => (x + y).to_bits(),
        Op::Sub => (x - y).to_bits(),
        Op::Mul => (x * y).to_bits(),
        Op::Div => (x / y).to_bits(),
        Op::Exp => x.exp().to_bits(),
        Op::FromCount => (a as f32).to_bits(),
        Op::CeilCount => x.ceil() as u32,
    }
}

fn uniform(rng: &mut ChaCha8Rng, low: u32, high: u32) -> u32 {
    rng.gen_range(f32::from_bits(low)..f32::from_bits(high)).to_bits()
}

fn bits(v: f32) -> u32 {
    v.to_bits()
}

fn config(n: usize, traj_start: usize, traj_count: usize, t_steps: usize, seed: u64) -> Config {
    Config {
        split: String::from("train"),
        n,
        traj_start,
        traj_count,
        t_steps,
        alpha_min: bits(0.05),
        alpha_max: bits(0.5),
        mu_values: vec![bits(2.0), bits(5.0), bits(10.0), bits(20.0)],
        s_ref: bits(0.4),
        seed,
    }
}

fn border_is_zero(field: &[u32], n: usize) -> bool {
    (0..n).all(|i| {
        field[i] == 0 && field[(n - 1) * n + i] == 0 && field[i * n] == 0 && field[i * n + n - 1] == 0
    })
}

fn same_sample(a: &Sample, b: &Sample) -> bool {
    a.input == b.input
        && a.target == b.target
        && a.meta.global_sample_idx == b.meta.global_sample_idx
        && a.meta.split == b.meta.split
        && a.meta.traj_idx == b.meta.traj_idx
        && a.meta.step_idx == b.meta.step_idx
        && a.meta.base_seed == b.meta.base_seed
        && a.meta.traj_seed == b.meta.traj_seed
        && a.meta.n == b.meta.n
        && a.meta.dx == b.meta.dx
        && a.meta.alpha == b.meta.alpha
        && a.meta.mu == b.meta.mu
        && a.meta.tau == b.meta.tau
        && a.meta.s_ref == b.meta.s_ref
        && a.meta.k_used_ref == b.meta.k_used_ref
        && a.meta.ic_type == b.meta.ic_type
}

#[test]
fn traj_seed_mixes_the_index_into_the_base() {
    assert_eq!(SEED_MIX, 0x9E3779B97F4A7C15);
    assert_eq!(traj_seed(123, 0), 123);
    assert_eq!(traj_seed(0, 1), 0x9E3779B97F4A7C15);
    assert_eq!(traj_seed(123, 1), 123 ^ 0x9E3779B97F4A7C15);
    assert_eq!(traj_seed(0, 2), 0x3C6EF372FE94F82A);
    assert_eq!(traj_seed(0xFFFF_FFFF_FFFF_FFFF, 3), !0xDAA66D2C7DDF743Fu64);
    for i in 0..50usize {
        for base in [0u64, 1, 123, u64::MAX] {
            assert_eq!(traj_seed(base, i), base ^ (i as u64).wrapping_mul(0x9E3779B97F4A7C15));
        }
    }
}

#[test]
fn traj_seeds_differ_between_trajectories() {
    let mut seen = std::collections::HashSet::new();
    for i in 0..1000usize {
        assert!(seen.insert(traj_seed(123, i)));
    }
}

#[test]
fn write_f32_vec_stores_four_bytes_per_cell_low_byte_first() {
    let mut w = vec![0xAAu8];
    write_f32_vec(&mut w, &[0x0403_0201, bits(1.0), 0]);
    assert_eq!(w, vec![0xAA, 1, 2, 3, 4, 0x00, 0x00, 0x80, 0x3F, 0, 0, 0, 0]);
    let field = [bits(0.25), bits(-3.5), bits(f32::INFINITY)];
    let mut got = Vec::new();
    write_f32_vec(&mut got, &field);
    let mut want = Vec::new();
    for v in [0.25f32, -3.5, f32::INFINITY] {
        want.extend_from_slice(&v.to_le_bytes());
    }
    assert_eq!(got, want);
    let mut untouched = vec![7u8, 8];
    write_f32_vec(&mut untouched, &[]);
    assert_eq!(untouched, vec![7, 8]);
}

#[test]
fn validate_reports_the_first_fault() {
    assert_eq!(config(8, 0, 1, 1, 1).validate(), Ok(()));

    let mut c = config(8, 0, 1, 1, 1);
    c.alpha_max = c.alpha_min;
    assert_eq!(c.validate(), Err(ConfigError::EmptyAlphaRange));
    c.alpha_max = bits(0.01);
    assert_eq!(c.validate(), Err(ConfigError::EmptyAlphaRange));
    c.alpha_max = bits(f32::NAN);
    assert_eq!(c.validate(), Err(ConfigError::EmptyAlphaRange));

    let mut c = config(8, 0, 1, 1, 1);
    c.mu_values = vec![];
    assert_eq!(c.validate(), Err(ConfigError::EmptyMuSet));
    c.mu_values = vec![bits(1.0), bits(-1.0)];
    assert_eq!(c.validate(), Err(ConfigError::InvalidMu));
    c.mu_values = vec![bits(f32::NAN)];
    assert_eq!(c.validate(), Err(ConfigError::InvalidMu));

    assert_eq!(config(2, 0, 1, 1, 1).validate(), Err(ConfigError::GridTooSmall));
    assert_eq!(config(3, 0, 1, 1, 1).validate(), Ok(()));

    // the range of diffusivities is looked at first, the grid last
    let mut c = config(1, 0, 1, 1, 1);
    c.mu_values = vec![];
    assert_eq!(c.validate(), Err(ConfigError::EmptyMuSet));
    c.alpha_min = bits(1.0);
    assert_eq!(c.validate(), Err(ConfigError::EmptyAlphaRange));
}

#[test]
fn run_refuses_a_faulty_configuration() {
    let mut c = config(8, 0, 2, 2, 1);
    c.alpha_max = bits(0.0);
    assert!(matches!(run(&c, &machine, &uniform), Err(ConfigError::EmptyAlphaRange)));
    let mut c = config(8, 0, 2, 2, 1);
    c.mu_values.clear();
    assert!(matches!(run(&c, &machine, &uniform), Err(ConfigError::EmptyMuSet)));
    let mut c = config(8, 0, 2, 2, 1);
    c.mu_values.push(bits(-2.0));
    assert!(matches!(run(&c, &machine, &uniform), Err(ConfigError::InvalidMu)));
    assert!(matches!(run(&config(2, 0, 0, 0, 1), &machine, &uniform), Err(ConfigError::GridTooSmall)));
}

#[test]
fn load_ic_limits_the_cells_and_zeroes_the_border() {
    let n = 4usize;
    let mut s = SolverCore::new(n, &machine).unwrap();
    let field: Vec<u32> = (0..n * n).map(|i| bits(i as f32 / 10.0 - 0.2)).collect();
    load_ic(&mut s, &field);
    for y in 0..n {
        for x in 0..n {
            let i = y * n + x;
            let want = if x == 0 || y == 0 || x == n - 1 || y == n - 1 {
                0.0
            } else {
                (i as f32 / 10.0 - 0.2).clamp(0.0, 1.0)
            };
            assert_eq!(f32::from_bits(s.field()[i]), want);
        }
    }
    assert_eq!(f32::from_bits(s.field()[5]), 0.3);
    assert_eq!(f32::from_bits(s.field()[10]), 0.8);
}

#[test]
fn run_emits_every_sample_with_its_index() {
    for (t, s) in [(3usize, 4usize), (1, 1), (5, 2), (2, 0), (0, 3)] {
        let c = config(8, 10, t, s, 123);
        let samples = run(&c, &machine, &uniform).unwrap();
        assert_eq!(samples.len(), t * s);
        for (k, sample) in samples.iter().enumerate() {
            assert_eq!(sample.meta.global_sample_idx, k as u64);
            assert_eq!(sample.meta.traj_idx, 10 + k / s);
            assert_eq!(sample.meta.step_idx, k % s);
            assert_eq!(sample.meta.base_seed, 123);
            assert_eq!(sample.meta.traj_seed, traj_seed(123, 10 + k / s));
            assert_eq!(sample.meta.n, 8);
            assert_eq!(sample.meta.split, "train");
            assert_eq!(sample.meta.s_ref, bits(0.4));
            assert_eq!(sample.meta.dx, bits(1.0 / 7.0));
            assert!(sample.meta.k_used_ref >= 1);
            assert!(c.mu_values.contains(&sample.meta.mu));
            let alpha = f32::from_bits(sample.meta.alpha);
            assert!((0.05..0.5).contains(&alpha));
            assert_eq!(sample.input.len(), 64);
            assert_eq!(sample.target.len(), 64);
            assert!(border_is_zero(&sample.input, 8));
            assert!(border_is_zero(&sample.target, 8));
        }
    }
}

#[test]
fn a_trajectory_goes_on_from_its_last_target() {
    let c = config(9, 0, 3, 5, 7);
    let samples = run(&c, &machine, &uniform).unwrap();
    for k in 0..samples.len() - 1 {
        if samples[k].meta.traj_idx == samples[k + 1].meta.traj_idx {
            assert_eq!(samples[k].target, samples[k + 1].input);
            assert_eq!(samples[k].meta.alpha, samples[k + 1].meta.alpha);
            assert_eq!(samples[k].meta.ic_type, samples[k + 1].meta.ic_type);
        }
    }
}

#[test]
fn run_is_the_trajectories_one_after_the_other() {
    let c = config(8, 4, 3, 2, 99);
    let all = run(&c, &machine, &uniform).unwrap();
    let mut k = 0;
    for local in 0..3 {
        let part = run_trajectory(&c, local, &machine, &uniform);
        assert_eq!(part.len(), 2);
        for sample in &part {
            assert!(same_sample(sample, &all[k]));
            k += 1;
        }
    }
    assert_eq!(k, all.len());
}

#[test]
fn runs_repeat_for_the_same_seed() {
    let c = config(8, 0, 4, 3, 2024);
    let a = run(&c, &machine, &uniform).unwrap();
    let b = run(&c, &machine, &uniform).unwrap();
    assert_eq!(a.len(), b.len());
    for (x, y) in a.iter().zip(b.iter()) {
        assert!(same_sample(x, y));
    }
    let mut bytes_a = Vec::new();
    let mut bytes_b = Vec::new();
    for (x, y) in a.iter().zip(b.iter()) {
        write_f32_vec(&mut bytes_a, &x.input);
        write_f32_vec(&mut bytes_a, &x.target);
        write_f32_vec(&mut bytes_b, &y.input);
        write_f32_vec(&mut bytes_b, &y.target);
    }
    assert_eq!(bytes_a, bytes_b);
    assert_eq!(bytes_a.len(), 4 * 3 * 2 * 64 * 4);

    let other = run(&config(8, 0, 4, 3, 2025), &machine, &uniform).unwrap();
    assert!(a.iter().zip(other.iter()).any(|(x, y)| !same_sample(x, y)));
}

#[test]
fn a_trajectory_depends_on_its_index_alone() {
    // the trajectory with index 6, as the third of one run and the first of another
    let a = run_trajectory(&config(8, 4, 3, 3, 5), 2, &machine, &uniform);
    let b = run_trajectory(&config(8, 6, 1, 3, 5), 0, &machine, &uniform);
    for (x, y) in a.iter().zip(b.iter()) {
        assert_eq!(x.input, y.input);
        assert_eq!(x.target, y.target);
        assert_eq!(x.meta.traj_idx, 6);
        assert_eq!(y.meta.traj_idx, 6);
        assert_eq!(x.meta.traj_seed, y.meta.traj_seed);
        assert_eq!(x.meta.mu, y.meta.mu);
        assert_eq!(x.meta.global_sample_idx, y.meta.global_sample_idx + 6);
    }
}

#[test]
fn a_trajectory_draws_from_its_stream_in_order() {
    let c = config(8, 3, 2, 4, 31);
    for local in 0..2usize {
        let samples = run_trajectory(&c, local, &machine, &uniform);
        let mut rng = ChaCha8Rng::seed_from_u64(traj_seed(31, 3 + local));
        let alpha: f32 = rng.gen_range(0.05f32..0.5);
        let family = ic_type_from_draw(rng.gen_range(0..4));
        assert_eq!(samples[0].meta.alpha, bits(alpha));
        assert_eq!(samples[0].meta.ic_type, family);
        // the initial condition comes next in the stream, then one jump size for each step
        let ic = diffusion_solver::ic::generate_ic(&mut rng, 8, family, &machine, &uniform);
        let mut solver = SolverCore::new(8, &machine).unwrap();
        solver.set_alpha(bits(alpha));
        solver.set_s_ref(bits(0.4));
        load_ic(&mut solver, &ic);
        assert_eq!(samples[0].input, solver.clone_field());
        for sample in &samples {
            let mu = *c.mu_values.choose(&mut rng).unwrap();
            assert_eq!(sample.meta.mu, mu);
            solver.set_mu(mu);
            assert_eq!(sample.input, solver.clone_field());
            let (k, tau) = solver.step_tau_ref(&machine);
            assert_eq!(sample.meta.k_used_ref, k);
            assert_eq!(sample.meta.tau, tau);
            assert_eq!(sample.target, solver.clone_field());
        }
    }
}

#[test]
fn the_record_holds_what_the_step_used() {
    let c = config(8, 0, 2, 3, 11);
    for sample in run(&c, &machine, &uniform).unwrap() {
        let dx = 1.0f32 / 7.0;
        let alpha = f32::from_bits(sample.meta.alpha);
        let mu = f32::from_bits(sample.meta.mu);
        let tau = (mu * dx * dx) / alpha;
        assert_eq!(sample.meta.tau, bits(tau));
        let dt = 0.4f32 * ((dx * dx) / (4.0 * alpha));
        assert_eq!(sample.meta.k_used_ref, ((tau / dt).ceil() as u32).max(1));
    }
}

#[test]
fn small_grids_run_with_every_family() {
    let mut blank = 0;
    let mut others = 0;
    for n in 3..6usize {
        for seed in 0..40u64 {
            let c = config(n, 0, 1, 2, seed);
            let mut rng = ChaCha8Rng::seed_from_u64(traj_seed(seed, 0));
            let _alpha: f32 = rng.gen_range(0.05f32..0.5);
            let family = ic_type_from_draw(rng.gen_range(0..4));
            let samples = run_trajectory(&c, 0, &machine, &uniform);
            assert_eq!(samples.len(), 2);
            assert_eq!(samples[0].meta.ic_type, family);
            assert_eq!(run(&c, &machine, &uniform).unwrap().len(), 2);
            for sample in &samples {
                assert!(border_is_zero(&sample.input, n));
                assert!(border_is_zero(&sample.target, n));
                let cells = sample.input.iter().chain(sample.target.iter());
                assert!(cells.map(|b| f32::from_bits(*b)).all(|v| (0.0..=1.0).contains(&v)));
            }
            if family == IcType::Rectangles {
                // without room for a rectangle the trajectory starts from the zero field
                assert!(samples.iter().all(|s| s.input.iter().all(|c| *c == 0)));
                assert!(samples.iter().all(|s| s.target.iter().all(|c| *c == 0)));
                blank += 1;
            } else {
                others += 1;
            }
        }
    }
    assert!(blank > 0 && others > 0);
}

fn decimal(text: &str) -> Option<u32> {
    text.parse::<f32>().ok().map(|v| v.to_bits())
}

fn configured(n: usize, alpha_min: f32, alpha_max: f32, mu_set: &str) -> Result<Config, ConfigError> {
    configure(
        String::from("val"),
        n,
        7,
        3,
        2,
        bits(alpha_min),
        bits(alpha_max),
        mu_set,
        bits(0.4),
        99,
        &decimal,
    )
}

#[test]
fn configure_keeps_the_parts_and_sorts_the_jump_sizes() {
    let c = configured(16, 0.05, 0.5, "10,2,2,5").unwrap();
    assert_eq!(c.split, "val");
    assert_eq!((c.n, c.traj_start, c.traj_count, c.t_steps), (16, 7, 3, 2));
    assert_eq!((c.alpha_min, c.alpha_max), (bits(0.05), bits(0.5)));
    assert_eq!(c.mu_values, vec![bits(2.0), bits(5.0), bits(10.0)]);
    assert_eq!(c.s_ref, bits(0.4));
    assert_eq!(c.seed, 99);
    assert_eq!(c.validate(), Ok(()));
}

#[test]
fn configure_reports_the_first_fault() {
    let fault = |r: Result<Config, ConfigError>| r.err();
    assert_eq!(fault(configured(16, 0.5, 0.5, "2")), Some(ConfigError::EmptyAlphaRange));
    assert_eq!(fault(configured(16, 0.5, 0.1, "x")), Some(ConfigError::EmptyAlphaRange));
    assert_eq!(fault(configured(2, 0.05, 0.5, "x,1")), Some(ConfigError::MalformedMu));
    assert_eq!(fault(configured(2, 0.05, 0.5, "1,-1")), Some(ConfigError::InvalidMu));
    assert_eq!(fault(configured(2, 0.05, 0.5, "nan")), Some(ConfigError::InvalidMu));
    assert_eq!(fault(configured(2, 0.05, 0.5, " , ")), Some(ConfigError::EmptyMuSet));
    assert_eq!(fault(configured(2, 0.05, 0.5, "")), Some(ConfigError::EmptyMuSet));
    assert_eq!(fault(configured(2, 0.05, 0.5, "1")), Some(ConfigError::GridTooSmall));
    assert_eq!(fault(configured(3, 0.05, 0.5, "1")), None);
}

#[test]
fn each_fault_has_its_message() {
    assert_eq!(ConfigError::EmptyAlphaRange.message(), "alpha_max must be > alpha_min");
    assert_eq!(ConfigError::MalformedMu.message(), "invalid float literal");
    assert_eq!(ConfigError::InvalidMu.message(), "mu_set cannot contain negative values");
    assert_eq!(ConfigError::EmptyMuSet.message(), "mu_set parsed to empty set");
    assert_eq!(ConfigError::GridTooSmall.message(), "SolverCore::new: n must be >= 3");
    assert_eq!(ConfigError::MalformedMu.message(), "x".parse::<f32>().unwrap_err().to_string());
}

#[test]
fn seed_unmix_undoes_seed_mix() {
    assert_eq!(SEED_MIX.wrapping_mul(SEED_UNMIX), 1);
    for x in [0u64, 1, 2, 12345, u64::MAX, 0x8000_0000_0000_0000] {
        assert_eq!(x.wrapping_mul(SEED_MIX).wrapping_mul(SEED_UNMIX), x);
        assert_eq!(traj_seed(0, x as usize).wrapping_mul(SEED_UNMIX), x);
    }
}

#[test]
fn fits_machine_looks_at_the_field_the_indices_and_the_count() {
    assert!(config(64, 0, 100, 8, 1).fits_machine());
    assert!(config(0, 0, 0, 0, 1).fits_machine());
    assert!(!config(usize::MAX, 0, 1, 1, 1).fits_machine());
    assert!(!config(1 << (usize::BITS / 2), 0, 1, 1, 1).fits_machine());
    assert!(config((1 << (usize::BITS / 2)) - 1, 0, 1, 1, 1).fits_machine());
    assert!(!config(8, usize::MAX, 1, 1, 1).fits_machine());
    assert!(config(8, usize::MAX - 1, 1, 1, 1).fits_machine());
    assert!(!config(8, 0, usize::MAX, usize::MAX, 1).fits_machine());
    assert!(config(8, 0, usize::MAX, 1, 1).fits_machine());
}
