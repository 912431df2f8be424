use diffusion_solver::arith::{apply, draw, Op};
use rand::Rng;
use rand::SeedableRng;
use rand_chacha::ChaCha8Rng;

fn machine(op: Op, a: u32, b: u32) -> u32 {
    let x = f32::from_bits(a);
    let y = f32::from_bits(b);
    match op {
        Op::Add => (x + y).to_bits(),
        Op::Sub => (x - y).to_bits(),
        Op::Mul => (x * y).to_bits(),
        Op::Div => (x / y).to_bits(),
        Op::Exp => x.exp().to_bits(),
        Op::FromCount => (a as f32).to_bits(),
        Op::CeilCount => x.ceil() as u32,
    }
}

fn uniform(rng: &mut ChaCha8Rng, low: u32, high: u32) -> u32 {
    rng.gen_range(f32::from_bits(low)..f32::from_bits(high)).to_bits()
}

#[test]
fn apply_hands_the_operation_and_both_operands_to_the_evaluator() {
    let seen = std::cell::RefCell::new(Vec::new());
    let spy = |op: Op, a: u32, b: u32| {
        seen.borrow_mut().push((op, a, b));
        a.wrapping_mul(10).wrapping_add(b)
    };
    assert_eq!(apply(&spy, Op::Sub, 4, 2), 42);
    assert_eq!(apply(&spy, Op::Exp, 1, 0), 10);
    assert_eq!(*seen.borrow(), vec![(Op::Sub, 4, 2), (Op::Exp, 1, 0)]);
}

#[test]
fn apply_with_the_machine() {
    let b = |v: f32| v.to_bits();
    assert_eq!(apply(&machine, Op::Add, b(1.5), b(2.25)), b(3.75));
    assert_eq!(apply(&machine, Op::Sub, b(1.5), b(2.25)), b(-0.75));
    assert_eq!(apply(&machine, Op::Mul, b(1.5), b(2.0)), b(3.0));
    assert_eq!(apply(&machine, Op::Div, b(1.0), b(4.0)), b(0.25));
    assert_eq!(apply(&machine, Op::Exp, b(0.0), 0), b(1.0));
    assert_eq!(apply(&machine, Op::FromCount, 7, 0), b(7.0));
    assert_eq!(apply(&machine, Op::CeilCount, b(2.25), 0), 3);
    assert_eq!(apply(&machine, Op::CeilCount, b(-2.25), 0), 0);
    assert_eq!(apply(&machine, Op::CeilCount, b(f32::NAN), 0), 0);
    assert_eq!(apply(&machine, Op::CeilCount, b(1e20), 0), u32::MAX);
}

#[test]
fn draw_takes_the_next_number_of_the_stream() {
    let mut a = ChaCha8Rng::seed_from_u64(9);
    let mut b = ChaCha8Rng::seed_from_u64(9);
    for _ in 0..20 {
        let got = draw(&uniform, &mut a, 2.0f32.to_bits(), 7.0f32.to_bits());
        let want: f32 = b.gen_range(2.0..7.0);
        assert_eq!(got, want.to_bits());
        assert!((2.0..7.0).contains(&want));
    }
}

#[test]
fn the_machine_divides_a_finite_number_above_zero_by_itself_to_one() {
    let mut b: u32 = 1;
    while b < 0x7F80_0000 {
        assert_eq!(apply(&machine, Op::Div, b, b), 1.0f32.to_bits(), "{b:#x}");
        b += 2039;
    }
    assert_eq!(apply(&machine, Op::Div, 0x7F7F_FFFF, 0x7F7F_FFFF), 1.0f32.to_bits());
    // an infinity is not divided by itself to one
    assert!(f32::from_bits(apply(&machine, Op::Div, 0x7F80_0000, 0x7F80_0000)).is_nan());
}
