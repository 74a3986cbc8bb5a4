//! Fixed-point coordinate arithmetic.
//!
//! A coordinate value `v: i64` stands for the real number `v / 2^32`.  The
//! helpers here give exact integer counterparts of the real-number operations
//! the index needs: flooring division, rounding division (half away from
//! zero), and powers of two for the per-zoom tile counts.

use vstd::arithmetic::div_mod::{
    lemma_fundamental_div_mod, lemma_fundamental_div_mod_converse,
};
use vstd::prelude::*;

verus! {

/// The fixed-point representation of the real number 1.
pub const COORD_ONE: i64 = 0x1_0000_0000;

/// The fixed-point representation of the real number 1/2.
pub const COORD_HALF: i64 = 0x8000_0000;

/// `2^z` as a mathematical integer.
pub open spec fn two_pow(z: nat) -> int
    decreases z,
{
    if z == 0 {
        1
    } else {
        2 * two_pow((z - 1) as nat)
    }
}

pub proof fn lemma_two_pow_pos(z: nat)
    ensures
        1 <= two_pow(z),
    decreases z,
{
    if z > 0 {
        lemma_two_pow_pos((z - 1) as nat);
    }
}

pub proof fn lemma_two_pow_mono(a: nat, b: nat)
    requires
        a <= b,
    ensures
        two_pow(a) <= two_pow(b),
    decreases b,
{
    if a < b {
        lemma_two_pow_mono(a, (b - 1) as nat);
        lemma_two_pow_pos((b - 1) as nat);
    }
}

pub proof fn lemma_two_pow_bounds(z: nat)
    ensures
        1 <= two_pow(z),
        z <= 31 ==> two_pow(z) <= 0x8000_0000,
{
    lemma_two_pow_pos(z);
    if z <= 31 {
        lemma_two_pow_mono(z, 31);
        assert(two_pow(31) == 0x8000_0000) by {
            reveal_with_fuel(two_pow, 32);
        }
    }
}

/// `2^z` computed by repeated doubling.
pub fn pow2_u64(z: u8) -> (r: u64)
    requires
        z <= 31,
    ensures
        r == two_pow(z as nat),
        1 <= r <= 0x8000_0000,
{
    let mut r: u64 = 1;
    let mut i: u8 = 0;
    proof {
        lemma_two_pow_bounds(z as nat);
    }
    while i < z
        invariant
            i <= z <= 31,
            r == two_pow(i as nat),
            1 <= r <= 0x8000_0000,
        decreases z - i,
    {
        proof {
            lemma_two_pow_bounds((i + 1) as nat);
        }
        r = r * 2;
        i = i + 1;
    }
    r
}

/// Division of a possibly negative number by a positive one, rounding toward
/// negative infinity.  For a positive divisor this is exactly the mathematical
/// (Euclidean) quotient `n / d` of the specification language.
pub fn div_floor(n: i128, d: i128) -> (q: i128)
    requires
        0 < d,
        -0x1000_0000_0000_0000_0000_0000_0000_0000 < n,
    ensures
        q == n as int / d as int,
{
    if n >= 0 {
        let q = ((n as u128) / (d as u128)) as i128;
        proof {
            lemma_nonneg_div_matches(n as int, d as int);
        }
        q
    } else {
        let m = (-n) as u128;
        let dd = d as u128;
        let q = (m / dd) as i128;
        proof {
            lemma_neg_div(m as int, d as int);
        }
        if m % dd == 0 {
            -q
        } else {
            -q - 1
        }
    }
}

proof fn lemma_nonneg_div_matches(n: int, d: int)
    requires
        0 <= n,
        0 < d,
    ensures
        0 <= n / d <= n,
{
    lemma_fundamental_div_mod(n, d);
    if n / d < 0 {
        assert(d * (n / d) <= (n / d)) by (nonlinear_arith)
            requires 0 < d && n / d < 0;
    }
    if n / d > n {
        assert(d * (n / d) >= n / d) by (nonlinear_arith)
            requires 0 < d && n / d > 0;
    }
}

proof fn lemma_neg_div(m: int, d: int)
    requires
        0 <= m,
        0 < d,
    ensures
        m % d == 0 ==> (-m) / d == -(m / d),
        m % d != 0 ==> (-m) / d == -(m / d) - 1,
        0 <= m / d,
        0 <= m % d < d,
{
    lemma_fundamental_div_mod(m, d);
    lemma_nonneg_div_matches(m, d);
    let t = m / d;
    let s = m % d;
    if s == 0 {
        assert(-m == d * (-t) + 0) by (nonlinear_arith)
            requires m == d * t;
        lemma_fundamental_div_mod_converse(-m, d, -t, 0);
    } else {
        assert(-m == d * (-t - 1) + (d - s)) by (nonlinear_arith)
            requires m == d * t + s;
        lemma_fundamental_div_mod_converse(-m, d, -t - 1, d - s);
    }
}

/// The mathematical result of dividing `n` by `d` and rounding half away from
/// zero, matching how `f64::round` treats halves.
pub open spec fn round_div(n: int, d: int) -> int {
    if n >= 0 {
        (2 * n + d) / (2 * d)
    } else {
        -((2 * -n + d) / (2 * d))
    }
}

/// Division rounding half away from zero.
pub fn div_round(n: i128, d: i128) -> (q: i128)
    requires
        0 < d < 0x1000_0000_0000_0000_0000_0000_0000_0000,
        -0x1000_0000_0000_0000_0000_0000_0000_0000 < n < 0x1000_0000_0000_0000_0000_0000_0000_0000,
    ensures
        q == round_div(n as int, d as int),
{
    if n >= 0 {
        let q = ((2 * (n as u128) + (d as u128)) / (2 * (d as u128))) as i128;
        proof {
            lemma_nonneg_div_matches(2 * n + d, 2 * d);
        }
        q
    } else {
        let m = (-n) as u128;
        let q = ((2 * m + (d as u128)) / (2 * (d as u128))) as i128;
        proof {
            lemma_nonneg_div_matches(2 * -(n as int) + d, 2 * d);
        }
        -q
    }
}

/// Bounds for flooring division by a positive divisor.
pub proof fn lemma_div_floor_bounds(n: int, d: int)
    requires
        0 < d,
    ensures
        d * (n / d) <= n < d * (n / d) + d,
        n >= 0 ==> 0 <= n / d <= n,
{
    lemma_fundamental_div_mod(n, d);
    vstd::arithmetic::div_mod::lemma_mod_bound(n, d);
    if n >= 0 {
        lemma_nonneg_div_matches(n, d);
    }
}

} // verus!
