//! Scaling a field so that its greatest cell is one.

use vstd::prelude::*;
use crate::arith::{apply, gives, single_valued, total, unit_quotients, Op};
use crate::single::{
    clamp_unit, clamped_unit, is_finite, is_nan, less, lt, rank, unit_or_nan, ONE, ZERO,
};

verus! {

/// The greatest cell above zero, as a scan from the first cell finds it;
/// zero where no cell is above zero.
pub open spec fn peak(cells: Seq<u32>) -> u32
    decreases cells.len(),
{
    if cells.len() == 0 {
        ZERO
    } else {
        let m = peak(cells.drop_last());
        if less(m, cells.last()) {
            cells.last()
        } else {
            m
        }
    }
}

/// The peak is a number, not below zero, that no cell exceeds; it is zero
/// itself or one of the cells.
pub proof fn lemma_peak(cells: Seq<u32>)
    ensures
        !is_nan(peak(cells)),
        rank(peak(cells)) >= 0,
        forall|i: int| 0 <= i < cells.len() ==> !less(peak(cells), #[trigger] cells[i]),
        peak(cells) == ZERO || exists|i: int| 0 <= i < cells.len() && #[trigger] cells[i] == peak(cells),
        less(ZERO, peak(cells)) <==> exists|i: int| 0 <= i < cells.len() && less(ZERO, #[trigger] cells[i]),
    decreases cells.len(),
{
    if cells.len() > 0 {
        let init = cells.drop_last();
        lemma_peak(init);
        assert forall|i: int| 0 <= i < cells.len() implies !less(peak(cells), #[trigger] cells[i]) by {
            if i < init.len() {
                assert(cells[i] == init[i]);
            }
        }
        if peak(cells) != ZERO {
            if less(peak(init), cells.last()) {
                assert(cells[cells.len() - 1] == peak(cells));
            } else {
                let j = choose|j: int| 0 <= j < init.len() && #[trigger] init[j] == peak(init);
                assert(cells[j] == peak(cells));
            }
        }
        if less(ZERO, peak(cells)) {
            if less(peak(init), cells.last()) {
                assert(less(ZERO, cells[cells.len() - 1]));
            } else {
                let j = choose|j: int| 0 <= j < init.len() && less(ZERO, #[trigger] init[j]);
                assert(less(ZERO, cells[j]));
            }
        }
        if exists|i: int| 0 <= i < cells.len() && less(ZERO, #[trigger] cells[i]) {
            let i = choose|i: int| 0 <= i < cells.len() && less(ZERO, #[trigger] cells[i]);
            assert(!less(peak(cells), cells[i]));
        }
    }
}

/// `out` is what scaling may leave of the cell `v` under the peak `m`:
/// the quotient `v / m`, limited to `[0, 1]`.
pub open spec fn is_scaled<E: Fn(Op, u32, u32) -> u32>(eval: &E, v: u32, m: u32, out: u32) -> bool {
    exists|q: u32| #![trigger clamped_unit(q)] gives(eval, Op::Div, v, m, q) && out == clamped_unit(q)
}

/// `after` is what normalization may make of `before`: where a cell is
/// above zero, every cell is divided by the peak and limited to `[0, 1]`;
/// where none is, nothing is divided, and every cell is limited to
/// `[0, 1]` all the same.
pub open spec fn is_normalized<E: Fn(Op, u32, u32) -> u32>(
    eval: &E,
    before: Seq<u32>,
    after: Seq<u32>,
) -> bool {
    &&& after.len() == before.len()
    &&& !less(ZERO, peak(before)) ==> forall|i: int|
        0 <= i < before.len() ==> #[trigger] after[i] == clamped_unit(before[i])
    &&& less(ZERO, peak(before)) ==> forall|i: int|
        0 <= i < before.len() ==> is_scaled(eval, before[i], peak(before), #[trigger] after[i])
}

/// The greatest cell of the field is exactly one: some cell is one, and
/// every cell is a NaN or within `[0, 1]`.
pub open spec fn peak_is_one(cells: Seq<u32>) -> bool {
    &&& exists|i: int| 0 <= i < cells.len() && #[trigger] cells[i] == ONE
    &&& forall|i: int| 0 <= i < cells.len() ==> unit_or_nan(#[trigger] cells[i])
}

/// Under an evaluator that is a function, the normalized field is fixed
/// by the field it is made from.
pub proof fn lemma_normalized_unique<E: Fn(Op, u32, u32) -> u32>(
    eval: &E,
    before: Seq<u32>,
    after1: Seq<u32>,
    after2: Seq<u32>,
)
    requires
        single_valued(eval),
        is_normalized(eval, before, after1),
        is_normalized(eval, before, after2),
    ensures
        after1 == after2,
{
    if less(ZERO, peak(before)) {
        assert forall|i: int| 0 <= i < before.len() implies after1[i] == after2[i] by {
            assert(is_scaled(eval, before[i], peak(before), after1[i]));
            assert(is_scaled(eval, before[i], peak(before), after2[i]));
        }
    }
    assert(after1 =~= after2);
}

/// Every cell of a normalized field is a NaN or within `[0, 1]`, whatever
/// the evaluator gives.
pub proof fn lemma_normalized_bounds<E: Fn(Op, u32, u32) -> u32>(
    eval: &E,
    before: Seq<u32>,
    after: Seq<u32>,
)
    requires
        is_normalized(eval, before, after),
    ensures
        after.len() == before.len(),
        forall|i: int| 0 <= i < after.len() ==> unit_or_nan(#[trigger] after[i]),
{
    assert forall|i: int| 0 <= i < after.len() implies unit_or_nan(#[trigger] after[i]) by {
        if less(ZERO, peak(before)) {
            assert(is_scaled(eval, before[i], peak(before), after[i]));
        }
    }
}

/// A field of zeros is left as it is by normalization.
pub proof fn lemma_normalized_zero<E: Fn(Op, u32, u32) -> u32>(
    eval: &E,
    before: Seq<u32>,
    after: Seq<u32>,
)
    requires
        is_normalized(eval, before, after),
        forall|i: int| 0 <= i < before.len() ==> #[trigger] before[i] == ZERO,
    ensures
        after == before,
{
    lemma_peak(before);
    assert(after =~= before);
}

/// Where the evaluator divides the peak by itself to exactly one, the
/// greatest cell of a normalized field that had a cell above zero is
/// exactly one.
pub proof fn lemma_normalized_peak<E: Fn(Op, u32, u32) -> u32>(
    eval: &E,
    before: Seq<u32>,
    after: Seq<u32>,
)
    requires
        is_normalized(eval, before, after),
        exists|i: int| 0 <= i < before.len() && less(ZERO, #[trigger] before[i]),
        forall|q: u32| gives(eval, Op::Div, peak(before), peak(before), q) ==> q == ONE,
    ensures
        peak_is_one(after),
{
    lemma_peak(before);
    let m = peak(before);
    let at_peak = choose|k: int| 0 <= k < before.len() && #[trigger] before[k] == m;
    assert(is_scaled(eval, before[at_peak], m, after[at_peak]));
    assert(after[at_peak] == ONE);
    assert forall|k: int| 0 <= k < after.len() implies unit_or_nan(#[trigger] after[k]) by {
        assert(is_scaled(eval, before[k], m, after[k]));
    }
}

/// Where the evaluator divides every finite number above zero by itself
/// to one, the greatest cell of a normalized field is exactly one,
/// provided that the field it is made from has a cell above zero and no
/// infinite cell.
pub proof fn lemma_normalized_peak_finite<E: Fn(Op, u32, u32) -> u32>(
    eval: &E,
    before: Seq<u32>,
    after: Seq<u32>,
)
    requires
        is_normalized(eval, before, after),
        unit_quotients(eval),
        exists|i: int| 0 <= i < before.len() && less(ZERO, #[trigger] before[i]),
        forall|i: int| 0 <= i < before.len() ==> is_finite(#[trigger] before[i]) || is_nan(before[i]),
    ensures
        peak_is_one(after),
{
    lemma_peak(before);
    let m = peak(before);
    let at_peak = choose|k: int| 0 <= k < before.len() && #[trigger] before[k] == m;
    assert(is_finite(m));
    lemma_normalized_peak(eval, before, after);
}

/// Scales the field so that its greatest cell becomes one: every cell is
/// divided by the peak, where the peak is above zero, and limited to
/// `[0, 1]` in any case. A field of zeros is left as it is.
///
/// Where the evaluator divides the peak by itself to exactly one, the
/// greatest cell of the result is exactly one; so it is for every field
/// with a cell above zero and no infinite cell, where the evaluator
/// divides every finite number above zero by itself to one.
pub fn normalize_01<E: Fn(Op, u32, u32) -> u32>(f: &mut Vec<u32>, eval: &E)
    requires
        total(eval),
    ensures
        is_normalized(eval, old(f)@, final(f)@),
        single_valued(eval) ==> forall|other: Seq<u32>|
            #[trigger] is_normalized(eval, old(f)@, other) ==> other == final(f)@,
        forall|i: int| 0 <= i < final(f)@.len() ==> unit_or_nan(#[trigger] final(f)@[i]),
        (forall|i: int| 0 <= i < old(f)@.len() ==> #[trigger] old(f)@[i] == ZERO) ==> final(f)@ == old(f)@,
        (exists|i: int| 0 <= i < old(f)@.len() && less(ZERO, #[trigger] old(f)@[i])) && (forall|q: u32|
            gives(eval, Op::Div, peak(old(f)@), peak(old(f)@), q) ==> q == ONE) ==> peak_is_one(
            final(f)@,
        ),
        unit_quotients(eval) && (exists|i: int| 0 <= i < old(f)@.len() && less(ZERO, #[trigger] old(f)@[i]))
            && (forall|i: int|
            0 <= i < old(f)@.len() ==> is_finite(#[trigger] old(f)@[i]) || is_nan(old(f)@[i]))
            ==> peak_is_one(final(f)@),
{
    let len = f.len();
    let mut mx: u32 = ZERO;
    let mut i: usize = 0;
    while i < len
        invariant
            i <= len,
            len == f@.len(),
            f@ == old(f)@,
            mx == peak(f@.take(i as int)),
        decreases len - i,
    {
        let v = f[i];
        proof {
            assert(f@.take(i + 1).drop_last() =~= f@.take(i as int));
        }
        if lt(mx, v) {
            mx = v;
        }
        i += 1;
    }
    proof {
        assert(f@.take(len as int) =~= f@);
        lemma_peak(f@);
    }
    if lt(ZERO, mx) {
        let ghost before = f@;
        let mut j: usize = 0;
        while j < len
            invariant
                j <= len,
                len == f@.len(),
                before.len() == len,
                total(eval),
                forall|k: int| 0 <= k < j ==> is_scaled(eval, before[k], mx, #[trigger] f@[k]),
                forall|k: int| j <= k < len ==> f@[k] == before[k],
            decreases len - j,
        {
            let q = apply(eval, Op::Div, f[j], mx);
            f.set(j, clamp_unit(q));
            proof {
                assert(f@[j as int] == clamped_unit(q));
            }
            j += 1;
        }
    } else {
        let ghost before = f@;
        let mut j: usize = 0;
        while j < len
            invariant
                j <= len,
                len == f@.len(),
                before.len() == len,
                forall|k: int| 0 <= k < j ==> #[trigger] f@[k] == clamped_unit(before[k]),
                forall|k: int| j <= k < len ==> f@[k] == before[k],
            decreases len - j,
        {
            let v = clamp_unit(f[j]);
            f.set(j, v);
            j += 1;
        }
    }
    proof {
        lemma_normalized_bounds(eval, old(f)@, f@);
        if single_valued(eval) {
            assert forall|other: Seq<u32>| #[trigger] is_normalized(eval, old(f)@, other) implies other
                == f@ by {
                lemma_normalized_unique(eval, old(f)@, other, f@);
            }
        }
        if forall|i: int| 0 <= i < old(f)@.len() ==> #[trigger] old(f)@[i] == ZERO {
            lemma_normalized_zero(eval, old(f)@, f@);
        }
        if (exists|i: int| 0 <= i < old(f)@.len() && less(ZERO, #[trigger] old(f)@[i])) && (forall|q: u32|
            gives(eval, Op::Div, peak(old(f)@), peak(old(f)@), q) ==> q == ONE) {
            lemma_normalized_peak(eval, old(f)@, f@);
        }
        if unit_quotients(eval) && (exists|i: int|
            0 <= i < old(f)@.len() && less(ZERO, #[trigger] old(f)@[i])) && (forall|i: int|
            0 <= i < old(f)@.len() ==> is_finite(#[trigger] old(f)@[i]) || is_nan(old(f)@[i])) {
            lemma_normalized_peak_finite(eval, old(f)@, f@);
        }
    }
}


} // verus!
