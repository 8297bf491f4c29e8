//! Facts of modular arithmetic that the wraparound of pointer and cells rests on.

use vstd::arithmetic::div_mod::{
    lemma_add_mod_noop, lemma_fundamental_div_mod, lemma_mod_bound, lemma_mod_multiples_vanish,
    lemma_mod_twice, lemma_small_mod,
};
use vstd::prelude::*;

verus! {

/// The remainder of `n` by `d` as the machine computes it for signed integers:
/// it has the sign of `n`.
pub open spec fn rem_toward_zero(n: int, d: int) -> int {
    if n >= 0 {
        n % d
    } else {
        -((-n) % d)
    }
}

/// Adding a multiple of the modulus changes no remainder.
pub proof fn lemma_multiple_vanishes(x: int, k: int, d: int)
    requires
        d > 0,
    ensures
        (x + k * d) % d == x % d,
{
    lemma_mod_multiples_vanish(k, x, d);
    assert(d * k + x == x + k * d) by (nonlinear_arith);
}

/// The machine's remainder differs from its dividend by a multiple of the modulus.
pub proof fn lemma_rem_toward_zero(x: int, n: int, d: int)
    requires
        d > 0,
    ensures
        -d < rem_toward_zero(n, d) < d,
        (x + rem_toward_zero(n, d)) % d == (x + n) % d,
{
    let t = rem_toward_zero(n, d);
    if n >= 0 {
        lemma_mod_bound(n, d);
        lemma_fundamental_div_mod(n, d);
        let q = n / d;
        assert(x + n == (x + t) + q * d) by (nonlinear_arith)
            requires
                n == d * q + t,
        ;
        lemma_multiple_vanishes(x + t, q, d);
    } else {
        lemma_mod_bound(-n, d);
        lemma_fundamental_div_mod(-n, d);
        let q = (-n) / d;
        assert(x + n == (x + t) + (-q) * d) by (nonlinear_arith)
            requires
                -n == d * q + (-t),
        ;
        lemma_multiple_vanishes(x + t, -q, d);
    }
}

/// Two additions under the modulus are one addition of the sum.
pub proof fn lemma_add_twice(x: int, a: int, b: int, d: int)
    requires
        d > 0,
    ensures
        ((x + a) % d + b) % d == (x + a + b) % d,
{
    lemma_add_mod_noop(x + a, b, d);
    lemma_add_mod_noop((x + a) % d, b, d);
    lemma_mod_twice(x + a, d);
}

/// A value already below the modulus is its own remainder after a full turn in
/// either direction.
pub proof fn lemma_full_turn(x: int, d: int)
    requires
        0 <= x < d,
    ensures
        x % d == x,
        (x + d) % d == x,
        (x - d) % d == x,
{
    lemma_small_mod(x as nat, d as nat);
    lemma_multiple_vanishes(x, 1, d);
    lemma_multiple_vanishes(x, -1, d);
}

/// `(base + count) mod modulus`, computed without overflow.
pub(crate) fn wrapped_sum(base: i64, count: i64, modulus: i64) -> (sum: i64)
    requires
        0 <= base < modulus <= 0x1000_0000,
    ensures
        sum == (base + count) % (modulus as int),
{
    let shift: i64 = count % modulus;
    proof {
        lemma_rem_toward_zero(base as int, count as int, modulus as int);
    }
    let target: i64 = base + shift;
    if target < 0 {
        proof {
            lemma_full_turn(target + modulus, modulus as int);
        }
        target + modulus
    } else if target >= modulus {
        proof {
            lemma_full_turn(target - modulus, modulus as int);
        }
        target - modulus
    } else {
        proof {
            lemma_full_turn(target as int, modulus as int);
        }
        target
    }
}

} // verus!
