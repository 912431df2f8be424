use diffusion_solver::arith::Op;
use diffusion_solver::solver::{
    SolverCore, ALPHA_FLOOR, DEFAULT_ALPHA, DEFAULT_MU, DEFAULT_S_REF, DEFAULT_S_RUN, FOUR, MARGIN_MAX,
    MARGIN_MIN,
};

fn machine(op: Op, a: u32, b: u32) -> u32 {
    let x = f32::from_bits(a);
    let y = f32::from_bits(b);
    match op {
        Op::Add => (x + y).to_bits(),
        Op::Sub => (x - y).to_bits(),
        Op::Mul => (x * y).to_bits(),
        Op::Div => (x / y).to_bits(),
        Op::Exp => x.exp().to_bits(),
        Op::FromCount => (a as f32).to_bits(),
        Op::CeilCount => x.ceil() as u32,
    }
}

fn bits(v: f32) -> u32 {
    v.to_bits()
}

fn values(field: &[u32]) -> Vec<f32> {
    field.iter().map(|b| f32::from_bits(*b)).collect()
}

fn border_is_zero(field: &[u32], n: usize) -> bool {
    (0..n).all(|i| {
        field[i] == 0 && field[(n - 1) * n + i] == 0 && field[i * n] == 0 && field[i * n + n - 1] == 0
    })
}

/// One substep on plain numbers, written out cell by cell.
fn direct_substep(field: &[f32], n: usize, alpha: f32, dx: f32, dt: f32) -> Vec<f32> {
    let mut next = vec![0.0f32; n * n];
    let c = alpha * dt / (dx * dx);
    for y in 1..n - 1 {
        for x in 1..n - 1 {
            let i = y * n + x;
            let lap = (field[i - n] + field[i + n] + field[i - 1] + field[i + 1]) - 4.0 * field[i];
            next[i] = (field[i] + c * lap).clamp(0.0, 1.0);
        }
    }
    next
}

#[test]
fn solver_constants_are_the_encodings_of_their_numbers() {
    assert_eq!(ALPHA_FLOOR, bits(1e-8));
    assert_eq!(MARGIN_MIN, bits(0.05));
    assert_eq!(MARGIN_MAX, bits(0.99));
    assert_eq!(DEFAULT_ALPHA, bits(0.2));
    assert_eq!(DEFAULT_MU, bits(10.0));
    assert_eq!(DEFAULT_S_RUN, bits(0.8));
    assert_eq!(DEFAULT_S_REF, bits(0.35));
    assert_eq!(FOUR, bits(4.0));
}

#[test]
fn new_refuses_a_grid_without_interior() {
    for n in 0..3 {
        match SolverCore::new(n, &machine) {
            Err(msg) => assert_eq!(msg, "n must be >= 3"),
            Ok(_) => panic!("a grid of side {n} was accepted"),
        }
    }
    assert!(SolverCore::new(3, &machine).is_ok());
}

#[test]
fn new_gives_a_zero_field_and_the_defaults() {
    let s = SolverCore::new(5, &machine).unwrap();
    assert_eq!(s.n(), 5);
    assert_eq!(s.field().len(), 25);
    assert!(s.field().iter().all(|c| *c == 0));
    assert_eq!(s.get_dx(), bits(1.0 / 4.0));
    assert_eq!(s.get_s_run(), bits(0.8));
    assert_eq!(s.get_s_ref(), bits(0.35));
    let dx = 0.25f32;
    assert_eq!(s.get_tau(&machine), bits((10.0f32 * dx * dx) / 0.2f32));
}

#[test]
fn spacing_is_one_over_n_minus_one() {
    for n in [3usize, 4, 7, 64, 100] {
        let s = SolverCore::new(n, &machine).unwrap();
        assert_eq!(s.get_dx(), bits(1.0f32 / ((n - 1) as f32)));
    }
}

#[test]
fn setters_limit_their_arguments() {
    let mut s = SolverCore::new(4, &machine).unwrap();
    let dx = 1.0f32 / 3.0;

    s.set_alpha(bits(-1.0));
    s.set_mu(bits(1.0));
    assert_eq!(s.get_tau(&machine), bits((1.0f32 * dx * dx) / 1e-8f32));
    s.set_alpha(bits(f32::NAN));
    assert_eq!(s.get_tau(&machine), bits((1.0f32 * dx * dx) / 1e-8f32));
    s.set_alpha(bits(0.5));
    assert_eq!(s.get_tau(&machine), bits((1.0f32 * dx * dx) / 0.5f32));

    s.set_mu(bits(-4.0));
    assert_eq!(s.get_tau(&machine), bits((0.0f32 * dx * dx) / 0.5f32));
    s.set_mu(bits(f32::NAN));
    assert_eq!(s.get_tau(&machine), bits((0.0f32 * dx * dx) / 0.5f32));
    s.set_mu(bits(2.5));
    assert_eq!(s.get_tau(&machine), bits((2.5f32 * dx * dx) / 0.5f32));

    s.set_s_run(bits(0.0));
    assert_eq!(s.get_s_run(), bits(0.05));
    s.set_s_run(bits(5.0));
    assert_eq!(s.get_s_run(), bits(0.99));
    s.set_s_run(bits(0.5));
    assert_eq!(s.get_s_run(), bits(0.5));

    s.set_s_ref(bits(-1.0));
    assert_eq!(s.get_s_ref(), bits(0.05));
    s.set_s_ref(bits(1.0));
    assert_eq!(s.get_s_ref(), bits(0.99));
    s.set_s_ref(bits(0.4));
    assert_eq!(s.get_s_ref(), bits(0.4));
}

#[test]
fn set_cell_limits_the_value_and_ignores_positions_outside() {
    let mut s = SolverCore::new(4, &machine).unwrap();
    s.set_cell(1, 2, bits(0.25));
    s.set_cell(2, 1, bits(3.0));
    s.set_cell(2, 2, bits(-3.0));
    s.set_cell(0, 0, bits(0.5));
    s.set_cell(4, 0, bits(0.5));
    s.set_cell(0, 4, bits(0.5));
    s.set_cell(usize::MAX, usize::MAX, bits(0.5));
    let f = values(s.field());
    assert_eq!(f[2 * 4 + 1], 0.25);
    assert_eq!(f[1 * 4 + 2], 1.0);
    assert_eq!(f[2 * 4 + 2], 0.0);
    // the border is left as set until the field is finalized
    assert_eq!(f[0], 0.5);
    assert_eq!(f.iter().filter(|v| **v != 0.0).count(), 3);
    s.finalize_ic();
    let f = values(s.field());
    assert_eq!(f[0], 0.0);
    assert_eq!(f[2 * 4 + 1], 0.25);
    assert!(border_is_zero(s.field(), 4));
}

#[test]
fn add_hotspot_adds_limits_and_zeroes_the_border() {
    let mut s = SolverCore::new(5, &machine).unwrap();
    s.set_cell(0, 3, bits(0.9));
    s.add_hotspot(2, 2, bits(0.4), &machine);
    assert_eq!(s.field()[2 * 5 + 2], bits(0.0f32 + 0.4));
    assert!(border_is_zero(s.field(), 5));
    s.add_hotspot(2, 2, bits(0.4), &machine);
    assert_eq!(s.field()[2 * 5 + 2], bits(0.4f32 + 0.4));
    s.add_hotspot(2, 2, bits(0.4), &machine);
    assert_eq!(s.field()[2 * 5 + 2], bits(1.0));
    s.add_hotspot(2, 2, bits(-7.0), &machine);
    assert_eq!(s.field()[2 * 5 + 2], bits(0.0));
    // on the border the sum is zeroed at once
    s.add_hotspot(0, 2, bits(0.7), &machine);
    assert_eq!(s.field()[2 * 5], 0);
    // outside the grid nothing happens
    let before = s.clone_field();
    s.add_hotspot(5, 1, bits(0.7), &machine);
    s.add_hotspot(1, 5, bits(0.7), &machine);
    assert_eq!(s.clone_field(), before);
}

#[test]
fn clear_zeroes_every_cell() {
    let mut s = SolverCore::new(4, &machine).unwrap();
    s.set_cell(1, 1, bits(1.0));
    s.set_cell(0, 0, bits(1.0));
    s.clear();
    assert!(s.field().iter().all(|c| *c == 0));
    assert_eq!(s.field().len(), 16);
}

#[test]
fn clone_field_is_independent_of_the_solver() {
    let mut s = SolverCore::new(4, &machine).unwrap();
    s.set_cell(1, 1, bits(0.5));
    let mut copy = s.clone_field();
    assert_eq!(copy.as_slice(), s.field());
    copy[5] = bits(0.75);
    assert_eq!(s.field()[5], bits(0.5));
    s.set_cell(2, 2, bits(0.125));
    assert_eq!(copy[10], 0);
}

#[test]
fn center_hotspot_scenario() {
    let n = 4usize;
    let mut s = SolverCore::new(n, &machine).unwrap();
    s.set_alpha(bits(0.2));
    s.set_mu(bits(10.0));
    s.set_s_ref(bits(0.35));
    s.set_cell(1, 1, bits(1.0));
    s.finalize_ic();
    assert_eq!(s.field()[1 * n + 1], bits(1.0));
    let mut border = 0;
    for y in 0..n {
        for x in 0..n {
            if x == 0 || y == 0 || x == n - 1 || y == n - 1 {
                assert_eq!(s.field()[y * n + x], 0);
                border += 1;
            }
        }
    }
    assert_eq!(border, 12);

    let dx = 1.0f32 / 3.0;
    let alpha = 0.2f32;
    let tau = (10.0f32 * dx * dx) / alpha;
    let dt = 0.35f32 * ((dx * dx) / (4.0 * alpha));
    let k = (tau / dt).ceil() as u32;
    assert_eq!(k, 115);
    let dt_prime = tau / (k as f32);
    let mut expected = vec![0.0f32; n * n];
    expected[1 * n + 1] = 1.0;
    for _ in 0..k {
        expected = direct_substep(&expected, n, alpha, dx, dt_prime);
    }

    let (k_used, tau_used) = s.step_tau_ref(&machine);
    assert_eq!(k_used, k);
    assert_eq!(tau_used, bits(tau));
    let got = s.clone_field();
    for i in 0..n * n {
        assert_eq!(got[i], bits(expected[i]), "cell {i}");
    }
    assert!(border_is_zero(&got, n));
    // the heat has spread from the centre cell to its interior neighbours and decayed
    let f = values(&got);
    assert!(f[1 * n + 1] < 1.0);
    assert!(f[1 * n + 2] >= 0.0 && f[2 * n + 1] >= 0.0);
    assert_eq!(f[1 * n + 2], f[2 * n + 1]);
}

#[test]
fn steps_return_at_least_one_substep_and_rebuild_tau() {
    let settings: [(f32, f32, f32); 6] = [
        (0.2, 10.0, 0.35),
        (0.05, 2.0, 0.99),
        (0.5, 20.0, 0.05),
        (0.3, 0.0, 0.4),
        (1e-8, 5.0, 0.8),
        (0.2, 0.001, 0.99),
    ];
    for (alpha, mu, margin) in settings {
        for run in [false, true] {
            let mut s = SolverCore::new(6, &machine).unwrap();
            s.set_alpha(bits(alpha));
            s.set_mu(bits(mu));
            s.set_s_run(bits(margin));
            s.set_s_ref(bits(margin));
            s.set_cell(2, 3, bits(0.8));
            s.finalize_ic();
            let expected_tau = s.get_tau(&machine);
            let (k, tau) = if run { s.step_tau_run(&machine) } else { s.step_tau_ref(&machine) };
            assert!(k >= 1);
            assert_eq!(tau, expected_tau);
            let t = f32::from_bits(tau);
            let rebuilt = (k as f32) * (t / (k as f32));
            assert!((rebuilt - t).abs() <= 1e-6 * t.abs().max(1e-30), "{rebuilt} against {t}");
            assert!(border_is_zero(s.field(), 6));
            assert!(values(s.field()).iter().all(|v| (0.0..=1.0).contains(v)));
        }
    }
}

#[test]
fn zero_jump_takes_one_substep_and_changes_nothing() {
    let mut s = SolverCore::new(5, &machine).unwrap();
    s.set_mu(bits(0.0));
    s.set_cell(2, 2, bits(0.6));
    s.finalize_ic();
    let before = s.clone_field();
    let (k, tau) = s.step_tau_ref(&machine);
    assert_eq!(k, 1);
    assert_eq!(tau, 0);
    assert_eq!(s.clone_field(), before);
}

#[test]
fn run_margin_takes_fewer_substeps_than_a_tighter_reference_margin() {
    let mut a = SolverCore::new(8, &machine).unwrap();
    let mut b = SolverCore::new(8, &machine).unwrap();
    a.set_cell(3, 3, bits(1.0));
    b.set_cell(3, 3, bits(1.0));
    a.finalize_ic();
    b.finalize_ic();
    let (k_run, tau_run) = a.step_tau_run(&machine);
    let (k_ref, tau_ref) = b.step_tau_ref(&machine);
    assert_eq!(tau_run, tau_ref);
    // ceil(40 / 0.8) and ceil(40 / 0.35)
    assert_eq!(k_run, 50);
    assert_eq!(k_ref, 115);
}

#[test]
fn border_stays_zero_over_many_steps() {
    let n = 7usize;
    let mut s = SolverCore::new(n, &machine).unwrap();
    for y in 0..n {
        for x in 0..n {
            s.set_cell(x, y, bits(((x * 3 + y * 5) % 7) as f32 / 6.0));
        }
    }
    s.finalize_ic();
    assert!(border_is_zero(s.field(), n));
    for _ in 0..5 {
        s.step_tau_ref(&machine);
        assert!(border_is_zero(s.field(), n));
        s.step_tau_run(&machine);
        assert!(border_is_zero(s.field(), n));
    }
}

#[test]
fn a_step_follows_the_direct_computation() {
    let n = 6usize;
    let mut s = SolverCore::new(n, &machine).unwrap();
    s.set_alpha(bits(0.31));
    s.set_mu(bits(5.0));
    s.set_s_run(bits(0.6));
    let mut expected = vec![0.0f32; n * n];
    for y in 1..n - 1 {
        for x in 1..n - 1 {
            let v = ((x * 7 + y * 3) % 5) as f32 / 4.0;
            s.set_cell(x, y, bits(v));
            expected[y * n + x] = v;
        }
    }
    s.finalize_ic();
    let dx = 1.0f32 / 5.0;
    let alpha = 0.31f32;
    let tau = (5.0f32 * dx * dx) / alpha;
    let dt = 0.6f32 * ((dx * dx) / (4.0 * alpha));
    let mut k = (tau / dt).ceil() as u32;
    if k < 1 {
        k = 1;
    }
    let dt_prime = tau / (k as f32);
    for _ in 0..k {
        expected = direct_substep(&expected, n, alpha, dx, dt_prime);
    }
    let (k_used, tau_used) = s.step_tau_run(&machine);
    assert_eq!(k_used, k);
    assert_eq!(tau_used, bits(tau));
    let want: Vec<u32> = expected.iter().map(|v| v.to_bits()).collect();
    assert_eq!(s.clone_field(), want);
}

#[test]
fn field_shows_what_clone_field_copies() {
    let mut s = SolverCore::new(5, &machine).unwrap();
    s.set_cell(2, 1, bits(0.5));
    s.set_cell(3, 3, bits(0.25));
    assert_eq!(s.field(), s.clone_field().as_slice());
    assert_eq!(s.field().len(), s.n() * s.n());
}

#[test]
fn a_cell_that_is_not_a_number_stays_so() {
    let mut s = SolverCore::new(4, &machine).unwrap();
    s.set_cell(1, 1, bits(f32::NAN));
    assert!(f32::from_bits(s.field()[5]).is_nan());
    s.set_cell(0, 1, bits(f32::NAN));
    s.finalize_ic();
    assert_eq!(s.field()[4], 0);
    assert!(f32::from_bits(s.field()[5]).is_nan());
}
