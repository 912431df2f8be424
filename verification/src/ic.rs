//! Initial conditions: four families of random fields, each scaled so that
//! its greatest cell is one.

use vstd::prelude::*;
use rand_chacha::ChaCha8Rng;
use crate::arith::{accepts, draw, draws, total, Op};
use crate::blur::{box_blur, is_blurred};
use crate::grid::{border_index, border_is_zero, lemma_side_fits, zeros};
use crate::normalize::{is_normalized, lemma_normalized_bounds, lemma_normalized_zero, normalize_01};
use crate::random::{draw_i32, draw_usize};
use crate::shapes::{
    add_gaussian, draw_blob, fill_noise, fill_ramp, is_added, is_blob, is_noise, is_ramp_field,
    stamp_rectangle, stamped, Blob,
};
use crate::single::{unit_or_nan, ONE, ZERO};

verus! {

/// The four families of initial conditions.
#[derive(Clone, Copy, Debug, PartialEq, Eq)]
pub enum IcType {
    /// One to three additive Gaussian blobs.
    Gaussians,
    /// One to four rectangles, combined by maximum.
    Rectangles,
    /// Uniform noise, smoothed by two passes of a box blur.
    SmoothNoise,
    /// A linear ramp along one axis plus one Gaussian blob.
    GradientMix,
}

/// The family that a draw from `0..4` selects.
pub open spec fn ic_type_of(i: int) -> IcType {
    if i == 0 {
        IcType::Gaussians
    } else if i == 1 {
        IcType::Rectangles
    } else if i == 2 {
        IcType::SmoothNoise
    } else {
        IcType::GradientMix
    }
}

impl IcType {
    /// The tag under which the family is recorded.
    pub open spec fn tag(self) -> Seq<char> {
        match self {
            IcType::Gaussians => "gaussians"@,
            IcType::Rectangles => "rectangles"@,
            IcType::SmoothNoise => "smooth_noise"@,
            IcType::GradientMix => "gradient_mix"@,
        }
    }

    /// The tag under which the family is recorded.
    pub fn as_str(&self) -> (s: &'static str)
        ensures
            s@ == self.tag(),
    {
        match self {
            IcType::Gaussians => "gaussians",
            IcType::Rectangles => "rectangles",
            IcType::SmoothNoise => "smooth_noise",
            IcType::GradientMix => "gradient_mix",
        }
    }
}

/// The family for a drawn number: the first three for 0, 1 and 2, the
/// fourth for anything else.
pub fn ic_type_from_draw(i: i32) -> (t: IcType)
    ensures
        t == ic_type_of(i as int),
{
    match i {
        0 => IcType::Gaussians,
        1 => IcType::Rectangles,
        2 => IcType::SmoothNoise,
        _ => IcType::GradientMix,
    }
}

/// Draws one of the four families: a number from 0 to 3, each as likely
/// as the others, and the family that stands for it.
pub fn sample_ic_type(rng: &mut ChaCha8Rng) -> (t: IcType)
    ensures
        exists|i: int| 0 <= i < 4 && t == #[trigger] ic_type_of(i),
{
    let i = draw_i32(rng, 0, 3);
    ic_type_from_draw(i)
}

/// Encoding of `0.5`.
pub const HALF: u32 = 0x3F00_0000;

/// Encodings of `0.15` and `0.85`: where, as a fraction of the grid, the
/// centre of a blob among several may lie.
pub const BLOB_CENTRE_LOW: u32 = 0x3E19_999A;

pub const BLOB_CENTRE_HIGH: u32 = 0x3F59_999A;

/// Encodings of `1.5` and `6.0`: the spread of a blob among several.
pub const BLOB_SIGMA_LOW: u32 = 0x3FC0_0000;

pub const BLOB_SIGMA_HIGH: u32 = 0x40C0_0000;

/// Encoding of `0.6`: the least amplitude of a blob among several; the
/// range ends at one.
pub const BLOB_AMP_LOW: u32 = 0x3F19_999A;

/// Encodings of `0.2` and `0.8`: where the centre of the blob on a ramp
/// may lie.
pub const BUMP_CENTRE_LOW: u32 = 0x3E4C_CCCD;

pub const BUMP_CENTRE_HIGH: u32 = 0x3F4C_CCCD;

/// Encodings of `2.0` and `7.0`: the spread of the blob on a ramp.
pub const BUMP_SIGMA_LOW: u32 = 0x4000_0000;

pub const BUMP_SIGMA_HIGH: u32 = 0x40E0_0000;

/// Encodings of `0.4` and `0.9`: the amplitude of the blob on a ramp.
pub const BUMP_AMP_LOW: u32 = 0x3ECC_CCCD;

pub const BUMP_AMP_HIGH: u32 = 0x3F66_6666;

/// The sampler accepts every range that a synthesis draws from.
pub open spec fn sampler_ready<S: Fn(&mut ChaCha8Rng, u32, u32) -> u32>(sample: &S) -> bool {
    &&& accepts(sample, BLOB_CENTRE_LOW, BLOB_CENTRE_HIGH)
    &&& accepts(sample, BLOB_SIGMA_LOW, BLOB_SIGMA_HIGH)
    &&& accepts(sample, BLOB_AMP_LOW, ONE)
    &&& accepts(sample, BUMP_CENTRE_LOW, BUMP_CENTRE_HIGH)
    &&& accepts(sample, BUMP_SIGMA_LOW, BUMP_SIGMA_HIGH)
    &&& accepts(sample, BUMP_AMP_LOW, BUMP_AMP_HIGH)
    &&& accepts(sample, HALF, ONE)
    &&& accepts(sample, ZERO, ONE)
}

/// `after` is what adding `count` blobs, each drawn as one among
/// several, may make of `before`.
pub open spec fn is_blob_sum<E: Fn(Op, u32, u32) -> u32, S: Fn(&mut ChaCha8Rng, u32, u32) -> u32>(
    eval: &E,
    sample: &S,
    n: int,
    before: Seq<u32>,
    after: Seq<u32>,
    count: nat,
) -> bool
    decreases count,
{
    if count == 0 {
        after == before
    } else {
        exists|mid: Seq<u32>, b: Blob|
            #![trigger is_added(eval, n, b, mid, after)]
            {
                &&& is_blob_sum(eval, sample, n, before, mid, (count - 1) as nat)
                &&& is_blob(
                    eval,
                    sample,
                    n as u32,
                    BLOB_CENTRE_LOW,
                    BLOB_CENTRE_HIGH,
                    BLOB_SIGMA_LOW,
                    BLOB_SIGMA_HIGH,
                    BLOB_AMP_LOW,
                    ONE,
                    b,
                )
                &&& is_added(eval, n, b, mid, after)
            }
    }
}

/// The lesser of `a` and `b`.
pub open spec fn lesser(a: int, b: int) -> int {
    if a < b {
        a
    } else {
        b
    }
}

/// Whether a grid of side `n` has room for a rectangle: a corner to draw
/// from `1..n/2` and an extent to draw from `2..n/2`. It has from side 6
/// on.
pub open spec fn has_room(n: int) -> bool {
    2 < n / 2
}

/// Tests whether a grid of side `n` has room for a rectangle.
pub fn room_for_rectangle(n: usize) -> (r: bool)
    ensures
        r == has_room(n as int),
        r == (n >= 6),
{
    2 < n / 2
}

/// `after` is `before` with one rectangle stamped over it, as it may be
/// drawn on a grid of side `n`: the first corner from `1..n/2` in each
/// direction, the width and the height from `2..n/2`, the far corner cut
/// off at `n - 2`, the value from `0.5..1`. On a grid without room for a
/// rectangle nothing is stamped.
pub open spec fn is_stamp<S: Fn(&mut ChaCha8Rng, u32, u32) -> u32>(
    sample: &S,
    n: int,
    before: Seq<u32>,
    after: Seq<u32>,
) -> bool {
    if has_room(n) {
        exists|x0: int, y0: int, w: int, h: int, val: u32|
            #![trigger stamped(before, n, x0, y0, lesser(x0 + w, n - 2), lesser(y0 + h, n - 2), val)]
            {
                &&& 1 <= x0 < n / 2
                &&& 1 <= y0 < n / 2
                &&& 2 <= w < n / 2
                &&& 2 <= h < n / 2
                &&& draws(sample, HALF, ONE, val)
                &&& after == stamped(
                    before,
                    n,
                    x0,
                    y0,
                    lesser(x0 + w, n - 2),
                    lesser(y0 + h, n - 2),
                    val,
                )
            }
    } else {
        after == before
    }
}

/// `after` is what stamping `count` rectangles, one after the other, may
/// make of `before`.
pub open spec fn is_stamped<S: Fn(&mut ChaCha8Rng, u32, u32) -> u32>(
    sample: &S,
    n: int,
    before: Seq<u32>,
    after: Seq<u32>,
    count: nat,
) -> bool
    decreases count,
{
    if count == 0 {
        after == before
    } else {
        exists|mid: Seq<u32>|
            #![trigger is_stamp(sample, n, mid, after)]
            is_stamped(sample, n, before, mid, (count - 1) as nat) && is_stamp(sample, n, mid, after)
    }
}

/// A rectangle lies in the interior of the grid: stamping it leaves every
/// border cell as it was.
pub proof fn lemma_stamp_keeps_border<S: Fn(&mut ChaCha8Rng, u32, u32) -> u32>(
    sample: &S,
    n: int,
    before: Seq<u32>,
    after: Seq<u32>,
)
    requires
        is_stamp(sample, n, before, after),
    ensures
        after.len() == before.len(),
        forall|i: int| 0 <= i < before.len() && border_index(n, i) ==> #[trigger] after[i] == before[i],
{
}

/// Rectangles stamped over a field with a zero border leave the border
/// zero.
pub proof fn lemma_stamped_keeps_border<S: Fn(&mut ChaCha8Rng, u32, u32) -> u32>(
    sample: &S,
    n: int,
    before: Seq<u32>,
    after: Seq<u32>,
    count: nat,
)
    requires
        is_stamped(sample, n, before, after, count),
        border_is_zero(before, n),
    ensures
        after.len() == before.len(),
        border_is_zero(after, n),
    decreases count,
{
    if count > 0 {
        let mid = choose|mid: Seq<u32>|
            is_stamped(sample, n, before, mid, (count - 1) as nat) && #[trigger] is_stamp(
                sample,
                n,
                mid,
                after,
            );
        lemma_stamped_keeps_border(sample, n, before, mid, (count - 1) as nat);
        lemma_stamp_keeps_border(sample, n, mid, after);
    }
}

/// On a grid without room for a rectangle, stamping rectangles changes
/// nothing.
pub proof fn lemma_stamped_without_room<S: Fn(&mut ChaCha8Rng, u32, u32) -> u32>(
    sample: &S,
    n: int,
    before: Seq<u32>,
    after: Seq<u32>,
    count: nat,
)
    requires
        is_stamped(sample, n, before, after, count),
        !has_room(n),
    ensures
        after == before,
    decreases count,
{
    if count > 0 {
        let mid = choose|mid: Seq<u32>|
            is_stamped(sample, n, before, mid, (count - 1) as nat) && #[trigger] is_stamp(
                sample,
                n,
                mid,
                after,
            );
        lemma_stamped_without_room(sample, n, before, mid, (count - 1) as nat);
    }
}

/// `raw` is a field of the family `ic` as it may stand before it is
/// normalized:
/// for `Gaussians`, one to three blobs added to a zero field;
/// for `Rectangles`, one to four rectangles stamped over a zero field,
/// where the grid has room for them;
/// for `SmoothNoise`, two passes of the box blur over drawn noise;
/// for `GradientMix`, one blob added to a ramp of one of four directions.
pub open spec fn is_raw_ic<E: Fn(Op, u32, u32) -> u32, S: Fn(&mut ChaCha8Rng, u32, u32) -> u32>(
    eval: &E,
    sample: &S,
    n: int,
    ic: IcType,
    raw: Seq<u32>,
) -> bool {
    let blank = Seq::new((n * n) as nat, |i: int| ZERO);
    &&& raw.len() == n * n
    &&& match ic {
        IcType::Gaussians => exists|count: nat|
            1 <= count <= 3 && #[trigger] is_blob_sum(eval, sample, n, blank, raw, count),
        IcType::Rectangles => exists|count: nat|
            1 <= count <= 4 && #[trigger] is_stamped(sample, n, blank, raw, count),
        IcType::SmoothNoise => exists|noise: Seq<u32>|
            #![trigger is_blurred(eval, n, noise, raw, 2)]
            noise.len() == n * n && is_noise(sample, noise) && is_blurred(eval, n, noise, raw, 2),
        IcType::GradientMix => exists|dir: int, ramp: Seq<u32>, b: Blob|
            #![trigger is_ramp_field(eval, n, dir, ramp), is_added(eval, n, b, ramp, raw)]
            {
                &&& 0 <= dir < 4
                &&& is_ramp_field(eval, n, dir, ramp)
                &&& is_blob(
                    eval,
                    sample,
                    n as u32,
                    BUMP_CENTRE_LOW,
                    BUMP_CENTRE_HIGH,
                    BUMP_SIGMA_LOW,
                    BUMP_SIGMA_HIGH,
                    BUMP_AMP_LOW,
                    BUMP_AMP_HIGH,
                    b,
                )
                &&& is_added(eval, n, b, ramp, raw)
            },
    }
}

/// `f` is an initial condition of the family `ic` as it may be
/// synthesized on a grid of side `n`: what normalization makes of a raw
/// field of that family.
pub open spec fn is_ic<E: Fn(Op, u32, u32) -> u32, S: Fn(&mut ChaCha8Rng, u32, u32) -> u32>(
    eval: &E,
    sample: &S,
    n: int,
    ic: IcType,
    f: Seq<u32>,
) -> bool {
    exists|raw: Seq<u32>|
        #![trigger is_normalized(eval, raw, f)]
        is_raw_ic(eval, sample, n, ic, raw) && is_normalized(eval, raw, f)
}

/// Every initial condition has `n * n` cells, each a NaN or within
/// `[0, 1]`; one of rectangles on a grid without room for a rectangle is
/// the zero field.
pub proof fn lemma_ic_bounds<E: Fn(Op, u32, u32) -> u32, S: Fn(&mut ChaCha8Rng, u32, u32) -> u32>(
    eval: &E,
    sample: &S,
    n: int,
    ic: IcType,
    f: Seq<u32>,
)
    requires
        0 <= n,
        is_ic(eval, sample, n, ic, f),
    ensures
        f.len() == n * n,
        forall|i: int| 0 <= i < f.len() ==> unit_or_nan(#[trigger] f[i]),
        ic == IcType::Rectangles && !has_room(n) ==> f == Seq::new((n * n) as nat, |i: int| ZERO),
{
    let raw = choose|raw: Seq<u32>|
        is_raw_ic(eval, sample, n, ic, raw) && #[trigger] is_normalized(eval, raw, f);
    lemma_normalized_bounds(eval, raw, f);
    if ic == IcType::Rectangles && !has_room(n) {
        let blank = Seq::new((n * n) as nat, |i: int| ZERO);
        let count = choose|count: nat|
            1 <= count <= 4 && #[trigger] is_stamped(sample, n, blank, raw, count);
        lemma_stamped_without_room(sample, n, blank, raw, count);
        lemma_normalized_zero(eval, raw, f);
    }
}

/// Synthesizes an initial condition of the family `ic` on a grid of side
/// `n`, drawing from `rng`, and normalizes it.
///
/// The number of rectangles is drawn on every grid; the rectangles
/// themselves are drawn and stamped only where the grid has room for
/// them, so on a side below 6 the family gives the zero field.
pub fn generate_ic<E: Fn(Op, u32, u32) -> u32, S: Fn(&mut ChaCha8Rng, u32, u32) -> u32>(
    rng: &mut ChaCha8Rng,
    n: usize,
    ic: IcType,
    eval: &E,
    sample: &S,
) -> (f: Vec<u32>)
    requires
        total(eval),
        sampler_ready(sample),
        n * n <= usize::MAX,
    ensures
        f@.len() == n * n,
        is_ic(eval, sample, n as int, ic, f@),
        forall|i: int| 0 <= i < f@.len() ==> unit_or_nan(#[trigger] f@[i]),
        ic == IcType::Rectangles && n < 6 ==> f@ == Seq::new((n * n) as nat, |i: int| ZERO),
{
    proof {
        lemma_side_fits(n as int);
    }
    let ghost side = n as int;
    let mut f = zeros(n * n);
    let ghost blank = Seq::new((side * side) as nat, |i: int| ZERO);
    assert(f@ =~= blank);
    match ic {
        IcType::Gaussians => {
            let blobs = draw_i32(rng, 1, 3);
            let mut b: i32 = 0;
            while b < blobs
                invariant
                    0 <= b <= blobs,
                    1 <= blobs <= 3,
                    total(eval),
                    sampler_ready(sample),
                    side == n as int,
                    n <= u32::MAX,
                    f@.len() == n * n,
                    is_blob_sum(eval, sample, side, blank, f@, b as nat),
                decreases blobs - b,
            {
                let blob = draw_blob(
                    rng,
                    n as u32,
                    BLOB_CENTRE_LOW,
                    BLOB_CENTRE_HIGH,
                    BLOB_SIGMA_LOW,
                    BLOB_SIGMA_HIGH,
                    BLOB_AMP_LOW,
                    ONE,
                    eval,
                    sample,
                );
                add_gaussian(&mut f, n, blob, eval);
                b += 1;
            }
            assert(is_raw_ic(eval, sample, side, ic, f@));
        },
        IcType::Rectangles => {
            let rects = draw_i32(rng, 1, 4);
            let mut r: i32 = 0;
            while r < rects
                invariant
                    0 <= r <= rects,
                    1 <= rects <= 4,
                    sampler_ready(sample),
                    side == n as int,
                    f@.len() == n * n,
                    is_stamped(sample, side, blank, f@, r as nat),
                decreases rects - r,
            {
                let ghost before = f@;
                if room_for_rectangle(n) {
                    let x0 = draw_usize(rng, 1, n / 2);
                    let y0 = draw_usize(rng, 1, n / 2);
                    let w = draw_usize(rng, 2, n / 2);
                    let h = draw_usize(rng, 2, n / 2);
                    let val = draw(sample, rng, HALF, ONE);
                    let x1: usize = if x0 + w < n - 2 {
                        x0 + w
                    } else {
                        n - 2
                    };
                    let y1: usize = if y0 + h < n - 2 {
                        y0 + h
                    } else {
                        n - 2
                    };
                    stamp_rectangle(&mut f, n, x0, y0, x1, y1, val);
                    proof {
                        assert(f@ == stamped(
                            before,
                            side,
                            x0 as int,
                            y0 as int,
                            lesser(x0 + w, side - 2),
                            lesser(y0 + h, side - 2),
                            val,
                        ));
                    }
                }
                assert(is_stamp(sample, side, before, f@));
                r += 1;
            }
            assert(is_raw_ic(eval, sample, side, ic, f@));
        },
        IcType::SmoothNoise => {
            fill_noise(&mut f, rng, sample);
            let smooth = box_blur(&f, n, 2, eval);
            proof {
                assert(is_blurred(eval, side, f@, smooth@, 2));
            }
            f = smooth;
        },
        IcType::GradientMix => {
            let dir = draw_i32(rng, 0, 3);
            fill_ramp(&mut f, n, dir, eval);
            let ghost ramp = f@;
            let blob = draw_blob(
                rng,
                n as u32,
                BUMP_CENTRE_LOW,
                BUMP_CENTRE_HIGH,
                BUMP_SIGMA_LOW,
                BUMP_SIGMA_HIGH,
                BUMP_AMP_LOW,
                BUMP_AMP_HIGH,
                eval,
                sample,
            );
            add_gaussian(&mut f, n, blob, eval);
            proof {
                assert(is_ramp_field(eval, side, dir as int, ramp));
                assert(is_added(eval, side, blob, ramp, f@));
            }
        },
    }
    let ghost raw = f@;
    assert(is_raw_ic(eval, sample, side, ic, raw));
    normalize_01(&mut f, eval);
    proof {
        assert(is_normalized(eval, raw, f@));
        lemma_ic_bounds(eval, sample, side, ic, f@);
    }
    f
}

} // verus!
