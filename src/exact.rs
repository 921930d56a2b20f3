//! Normalisation over an exact integer measure, in which a half turn is
//! `half` units. These are the laws that the two steps of normalisation give
//! when no rounding intervenes.
use crate::turn::{correction_of, TurnCorrection};
use core::cmp::Ordering;
use vstd::arithmetic::div_mod::{
    lemma_add_mod_noop, lemma_fundamental_div_mod, lemma_mod_add_multiples_vanish,
    lemma_mod_multiples_basic, lemma_mod_pos_bound, lemma_small_mod, lemma_sub_mod_noop,
};
use vstd::prelude::*;

verus! {

/// How `a` compares with `b`, as `partial_cmp` reports it for exact numbers.
pub open spec fn compare(a: int, b: int) -> Option<Ordering> {
    if a < b {
        Some(Ordering::Less)
    } else if a == b {
        Some(Ordering::Equal)
    } else {
        Some(Ordering::Greater)
    }
}

/// The remainder of `v` by `m` with the sign of `v`, as Rust's `%` computes it.
pub open spec fn trunc_rem(v: int, m: int) -> int {
    if v >= 0 {
        v % m
    } else {
        -((-v) % m)
    }
}

/// `r` with the correction `c` applied, a full turn being `2 * half`.
pub open spec fn apply_correction(r: int, c: TurnCorrection, half: int) -> int {
    match c {
        TurnCorrection::SubtractTurn => r - 2 * half,
        TurnCorrection::AddTurn => r + 2 * half,
        TurnCorrection::Keep => r,
    }
}

/// The normal form of the measure `v`: its truncating remainder by a full
/// turn, then the correction that its comparisons with the half turns call for.
pub open spec fn normalized(v: int, half: int) -> int {
    let r = trunc_rem(v, 2 * half);
    apply_correction(r, correction_of(compare(r, half), compare(r, -half)), half)
}

/// The canonical range (-half, half].
pub open spec fn is_canonical(a: int, half: int) -> bool {
    -half < a <= half
}

/// `a` and `b` differ by a whole number of turns.
pub open spec fn same_class(a: int, b: int, half: int) -> bool {
    (a - b) % (2 * half) == 0
}

/// The size of `a`, without its sign.
pub open spec fn abs(a: int) -> int {
    if a < 0 {
        -a
    } else {
        a
    }
}

proof fn lemma_class_of_multiple(k: int, half: int)
    requires
        half > 0,
    ensures
        same_class(k * (2 * half), 0, half),
{
    lemma_mod_multiples_basic(k, 2 * half);
}

proof fn lemma_class_symmetric(a: int, b: int, half: int)
    requires
        half > 0,
        same_class(a, b, half),
    ensures
        same_class(b, a, half),
{
    let m = 2 * half;
    lemma_sub_mod_noop(0, a - b, m);
    lemma_small_mod(0, m as nat);
}

proof fn lemma_class_transitive(a: int, b: int, c: int, half: int)
    requires
        half > 0,
        same_class(a, b, half),
        same_class(b, c, half),
    ensures
        same_class(a, c, half),
{
    let m = 2 * half;
    lemma_add_mod_noop(a - b, b - c, m);
    lemma_small_mod(0, m as nat);
}

/// Two canonical measures of one class are equal.
proof fn lemma_canonical_unique(a: int, b: int, half: int)
    requires
        half > 0,
        is_canonical(a, half),
        is_canonical(b, half),
        same_class(a, b, half),
    ensures
        a == b,
{
    let m = 2 * half;
    let d = a - b;
    if d > 0 {
        lemma_small_mod(d as nat, m as nat);
    } else if d < 0 {
        lemma_mod_add_multiples_vanish(d, m);
        lemma_small_mod((d + m) as nat, m as nat);
    }
}

/// The truncating remainder lies strictly inside a full turn either way and
/// differs from `v` by whole turns.
proof fn lemma_trunc_rem(v: int, half: int)
    requires
        half > 0,
    ensures
        -2 * half < trunc_rem(v, 2 * half) < 2 * half,
        same_class(trunc_rem(v, 2 * half), v, half),
{
    let m = 2 * half;
    if v >= 0 {
        lemma_fundamental_div_mod(v, m);
        lemma_mod_pos_bound(v, m);
        assert(v - v % m == (v / m) * m) by (nonlinear_arith)
            requires
                v == m * (v / m) + v % m,
        ;
        lemma_class_of_multiple(v / m, half);
        lemma_class_symmetric(v - v % m, 0, half);
        assert(same_class(v % m, v, half));
    } else {
        lemma_fundamental_div_mod(-v, m);
        lemma_mod_pos_bound(-v, m);
        let q = -((-v) / m);
        assert(v + (-v) % m == q * m) by (nonlinear_arith)
            requires
                -v == m * ((-v) / m) + (-v) % m,
                q == -((-v) / m),
        ;
        assert(trunc_rem(v, m) - v == (-q) * m) by (nonlinear_arith)
            requires
                v + (-v) % m == q * m,
                trunc_rem(v, m) == -((-v) % m),
        ;
        lemma_class_of_multiple(-q, half);
    }
}

/// Normalisation lands every measure in the canonical range, on a measure of
/// its own class.
pub proof fn lemma_normalized_canonical(v: int, half: int)
    requires
        half > 0,
    ensures
        is_canonical(normalized(v, half), half),
        same_class(normalized(v, half), v, half),
{
    let m = 2 * half;
    let r = trunc_rem(v, m);
    lemma_trunc_rem(v, half);
    let n = normalized(v, half);
    if n != r {
        lemma_mod_add_multiples_vanish(n - v, m);
        lemma_mod_add_multiples_vanish(r - v, m);
        assert(same_class(n, v, half));
    }
}

/// A canonical measure is its own normal form; in particular the half turn
/// stays where it is and the negative half turn becomes the half turn.
pub proof fn lemma_canonical_is_fixed(a: int, half: int)
    requires
        half > 0,
        is_canonical(a, half),
    ensures
        normalized(a, half) == a,
        normalized(half, half) == half,
        normalized(-half, half) == half,
{
    lemma_normalized_canonical(a, half);
    lemma_canonical_unique(normalized(a, half), a, half);
    lemma_normalized_canonical(-half, half);
    lemma_class_of_multiple(-1, half);
    lemma_class_transitive(normalized(-half, half), -half, half, half);
    lemma_canonical_unique(normalized(-half, half), half, half);
    lemma_normalized_canonical(half, half);
    lemma_canonical_unique(normalized(half, half), half, half);
}

/// Measures of one class have one normal form.
pub proof fn lemma_class_determines_normal_form(a: int, b: int, half: int)
    requires
        half > 0,
        same_class(a, b, half),
    ensures
        normalized(a, half) == normalized(b, half),
{
    lemma_normalized_canonical(a, half);
    lemma_normalized_canonical(b, half);
    lemma_class_transitive(normalized(a, half), a, b, half);
    lemma_class_symmetric(normalized(b, half), b, half);
    lemma_class_transitive(normalized(a, half), b, normalized(b, half), half);
    lemma_canonical_unique(normalized(a, half), normalized(b, half), half);
}

/// Adding any whole number of turns leaves the normal form unchanged.
pub proof fn lemma_normalized_periodic(v: int, k: int, half: int)
    requires
        half > 0,
    ensures
        normalized(v + k * (2 * half), half) == normalized(v, half),
{
    lemma_class_of_multiple(k, half);
    lemma_class_determines_normal_form(v + k * (2 * half), v, half);
}

/// Normalising the operands of a sum or a difference first does not change
/// the normal form of the result.
pub proof fn lemma_normalized_sum_and_difference(a: int, b: int, half: int)
    requires
        half > 0,
    ensures
        normalized(normalized(a, half) + normalized(b, half), half) == normalized(a + b, half),
        normalized(normalized(a, half) - normalized(b, half), half) == normalized(a - b, half),
{
    let m = 2 * half;
    let na = normalized(a, half);
    let nb = normalized(b, half);
    lemma_normalized_canonical(a, half);
    lemma_normalized_canonical(b, half);
    lemma_add_mod_noop(na - a, nb - b, m);
    lemma_small_mod(0, m as nat);
    assert(same_class(na + nb, a + b, half));
    lemma_class_determines_normal_form(na + nb, a + b, half);
    lemma_sub_mod_noop(na - a, nb - b, m);
    assert(same_class(na - nb, a - b, half));
    lemma_class_determines_normal_form(na - nb, a - b, half);
}

/// Adding a half turn twice comes back to the start, and taking a half turn
/// away gives what adding one gives.
pub proof fn lemma_half_turn_steps(a: int, half: int)
    requires
        half > 0,
    ensures
        normalized(normalized(a + half, half) + half, half) == normalized(a, half),
        normalized(a - half, half) == normalized(a + half, half),
{
    lemma_normalized_sum_and_difference(a + half, half, half);
    lemma_canonical_is_fixed(half, half);
    lemma_normalized_periodic(a, 1, half);
    lemma_normalized_periodic(a - half, 1, half);
}

/// The separation of two measures, the size of the normal form of their
/// difference, is at most a half turn, is the same either way round, and is
/// no more than the size of any difference of their classes' members.
pub proof fn lemma_separation_is_shortest(a: int, b: int, k: int, half: int)
    requires
        half > 0,
    ensures
        abs(normalized(a - b, half)) <= half,
        abs(normalized(b - a, half)) == abs(normalized(a - b, half)),
        abs(normalized(a - b, half)) <= abs(a - b + k * (2 * half)),
{
    let d = normalized(a - b, half);
    let e = normalized(b - a, half);
    let x = a - b + k * (2 * half);
    lemma_normalized_canonical(a - b, half);
    lemma_normalized_canonical(b - a, half);
    lemma_normalized_periodic(a - b, k, half);
    if abs(x) < abs(d) {
        lemma_normalized_canonical(x, half);
        lemma_canonical_is_fixed(x, half);
    }
    lemma_normalized_sum_and_difference(0, a - b, half);
    lemma_canonical_is_fixed(0, half);
    if d == half {
        lemma_canonical_is_fixed(half, half);
    } else {
        lemma_canonical_is_fixed(-d, half);
    }
}

} // verus!
