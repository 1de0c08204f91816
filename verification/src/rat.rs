use vstd::prelude::*;

verus! {

/// An exact rational scalar `num / den` with `den >= 1`.
///
/// Parametric distances along a ray are rationals: every intersection
/// algorithm in this crate produces and compares them by exact
/// cross-multiplication in `i128`, so no rounding ever enters a comparison.
#[derive(Clone, Copy, Debug)]
pub struct Rat {
    pub num: i64,
    pub den: i64,
}

/// `|a * b| <= bound_a * bound_b` whenever the factors are bounded.
pub proof fn lemma_mul_bound(a: int, b: int, ba: int, bb: int)
    by (nonlinear_arith)
    requires
        -ba <= a <= ba,
        -bb <= b <= bb,
        0 <= ba,
        0 <= bb,
    ensures
        -(ba * bb) <= a * b <= ba * bb,
{
}

impl Rat {
    /// Structural validity: a positive denominator.
    pub open spec fn wf(self) -> bool {
        self.den >= 1
    }

    /// `self < other` on the represented values.
    pub open spec fn spec_lt(self, other: Rat) -> bool {
        (self.num as int) * (other.den as int) < (other.num as int) * (self.den as int)
    }

    /// Equality of the represented values (not of the representations).
    pub open spec fn spec_eq(self, other: Rat) -> bool {
        (self.num as int) * (other.den as int) == (other.num as int) * (self.den as int)
    }

    /// The rational with value `n`.
    pub fn from_int(n: i64) -> (r: Rat)
        ensures
            r.wf(),
            r.num == n,
            r.den == 1,
    {
        Rat { num: n, den: 1 }
    }

    /// Exact strict comparison by cross-multiplication.
    pub fn lt(self, other: Rat) -> (r: bool)
        requires
            self.wf(),
            other.wf(),
        ensures
            r == self.spec_lt(other),
    {
        proof {
            lemma_mul_bound(self.num as int, other.den as int, 0x8000_0000_0000_0000, 0x8000_0000_0000_0000);
            lemma_mul_bound(other.num as int, self.den as int, 0x8000_0000_0000_0000, 0x8000_0000_0000_0000);
        }
        (self.num as i128) * (other.den as i128) < (other.num as i128) * (self.den as i128)
    }

}

/// `t_min <= nm/dn <= t_max`, by cross-multiplication (`dn >= 1`).
pub open spec fn in_itv(nm: int, dn: int, t_min: Rat, t_max: Rat) -> bool {
    &&& (t_min.num as int) * dn <= nm * (t_min.den as int)
    &&& nm * (t_max.den as int) <= (t_max.num as int) * dn
}

/// Exact in-interval test for a parametric distance `nm / dn`.
pub fn root_in_interval(nm: i64, dn: i64, t_min: Rat, t_max: Rat) -> (r: bool)
    requires
        dn >= 1,
        t_min.wf(),
        t_max.wf(),
    ensures
        r == in_itv(nm as int, dn as int, t_min, t_max),
{
    proof {
        lemma_mul_bound(t_min.num as int, dn as int, 0x8000_0000_0000_0000, 0x8000_0000_0000_0000);
        lemma_mul_bound(nm as int, t_min.den as int, 0x8000_0000_0000_0000, 0x8000_0000_0000_0000);
        lemma_mul_bound(nm as int, t_max.den as int, 0x8000_0000_0000_0000, 0x8000_0000_0000_0000);
        lemma_mul_bound(t_max.num as int, dn as int, 0x8000_0000_0000_0000, 0x8000_0000_0000_0000);
    }
    (t_min.num as i128) * (dn as i128) <= (nm as i128) * (t_min.den as i128)
        && (nm as i128) * (t_max.den as i128) <= (t_max.num as i128) * (dn as i128)
}

/// Division truncated toward zero, on a nonnegative divisor: the exact
/// meaning of the scaling steps in the material model.
pub open spec fn spec_tdiv(n: int, d: int) -> int {
    if n >= 0 {
        n / d
    } else {
        -((-n) / d)
    }
}

/// Truncated division, carried out on magnitudes so only unsigned division
/// is ever executed.
pub fn tdiv(n: i64, d: i64) -> (q: i64)
    requires
        d >= 1,
        -0x4000_0000_0000_0000 <= n <= 0x4000_0000_0000_0000,
    ensures
        q == spec_tdiv(n as int, d as int),
        n >= 0 ==> 0 <= q <= n,
        n < 0 ==> n <= q <= 0,
{
    if n >= 0 {
        let q = (n as u64) / (d as u64);
        proof {
            vstd::arithmetic::div_mod::lemma_div_is_ordered_by_denominator(n as int, 1, d as int);
            vstd::arithmetic::div_mod::lemma_div_pos_is_pos(n as int, d as int);
        }
        q as i64
    } else {
        let m = (-n) as u64;
        let q = m / (d as u64);
        proof {
            vstd::arithmetic::div_mod::lemma_div_is_ordered_by_denominator(m as int, 1, d as int);
            vstd::arithmetic::div_mod::lemma_div_pos_is_pos(m as int, d as int);
        }
        -(q as i64)
    }
}

/// Truncated division on wide intermediates.
pub fn tdiv_wide(n: i128, d: i128) -> (q: i128)
    requires
        d >= 1,
        -0x4000_0000_0000_0000_0000_0000_0000_0000 <= n <= 0x4000_0000_0000_0000_0000_0000_0000_0000,
    ensures
        q == spec_tdiv(n as int, d as int),
        n >= 0 ==> 0 <= q <= n,
        n < 0 ==> n <= q <= 0,
{
    if n >= 0 {
        let q = (n as u128) / (d as u128);
        proof {
            vstd::arithmetic::div_mod::lemma_div_is_ordered_by_denominator(n as int, 1, d as int);
            vstd::arithmetic::div_mod::lemma_div_pos_is_pos(n as int, d as int);
        }
        q as i128
    } else {
        let m = (-n) as u128;
        let q = m / (d as u128);
        proof {
            vstd::arithmetic::div_mod::lemma_div_is_ordered_by_denominator(m as int, 1, d as int);
            vstd::arithmetic::div_mod::lemma_div_pos_is_pos(m as int, d as int);
        }
        -(q as i128)
    }
}

/// Truncation error: `d * tdiv(a, d)` stays within `d` of `a`.
pub proof fn lemma_tdiv_mul_err(a: int, d: int)
    requires
        d >= 1,
    ensures
        a - d < d * spec_tdiv(a, d),
        d * spec_tdiv(a, d) < a + d,
{
    if a >= 0 {
        vstd::arithmetic::div_mod::lemma_fundamental_div_mod(a, d);
        vstd::arithmetic::div_mod::lemma_mod_bound(a, d);
    } else {
        vstd::arithmetic::div_mod::lemma_fundamental_div_mod(-a, d);
        vstd::arithmetic::div_mod::lemma_mod_bound(-a, d);
        assert(d * spec_tdiv(a, d) == a + ((-a) % d)) by (nonlinear_arith)
            requires
                spec_tdiv(a, d) == -((-a) / d),
                -a == d * ((-a) / d) + ((-a) % d),
        ;
    }
}

/// `|n| <= b * d` bounds the truncated quotient by `b`.
pub proof fn lemma_tdiv_bounds(n: int, d: int, b: int)
    requires
        d >= 1,
        b >= 0,
        -(b * d) <= n <= b * d,
    ensures
        -b <= spec_tdiv(n, d) <= b,
{
    vstd::arithmetic::mul::lemma_mul_is_commutative(b, d);
    vstd::arithmetic::div_mod::lemma_div_multiples_vanish(b, d);
    if n >= 0 {
        vstd::arithmetic::div_mod::lemma_div_is_ordered(n, b * d, d);
        vstd::arithmetic::div_mod::lemma_div_pos_is_pos(n, d);
    } else {
        vstd::arithmetic::div_mod::lemma_div_is_ordered(-n, b * d, d);
        vstd::arithmetic::div_mod::lemma_div_pos_is_pos(-n, d);
    }
}

/// A dividend at least the divisor gives a quotient of at least one, with
/// the dividend's sign.
pub proof fn lemma_tdiv_at_least_one(n: int, d: int)
    requires
        d >= 1,
        n >= d || n <= -d,
    ensures
        n >= d ==> spec_tdiv(n, d) >= 1,
        n <= -d ==> spec_tdiv(n, d) <= -1,
{
    vstd::arithmetic::div_mod::lemma_div_multiples_vanish(1, d);
    if n >= d {
        vstd::arithmetic::div_mod::lemma_div_is_ordered(d, n, d);
    } else {
        vstd::arithmetic::div_mod::lemma_div_is_ordered(d, -n, d);
    }
}

/// Floor of `n / d` for positive `d` (rounds toward negative infinity):
/// truncation, corrected downward when a negative dividend does not divide
/// evenly.
pub open spec fn spec_fdiv(n: int, d: int) -> int {
    if n >= 0 || spec_tdiv(n, d) * d == n {
        spec_tdiv(n, d)
    } else {
        spec_tdiv(n, d) - 1
    }
}

pub fn fdiv(n: i64, d: i64) -> (q: i64)
    requires
        d >= 1,
        -0x4000_0000_0000_0000 <= n <= 0x4000_0000_0000_0000,
    ensures
        q == spec_fdiv(n as int, d as int),
        n >= 0 ==> 0 <= q <= n,
        n < 0 ==> n - 1 <= q <= 0,
{
    let q0 = tdiv(n, d);
    proof {
        lemma_mul_bound(q0 as int, d as int, 0x4000_0000_0000_0000, 0x8000_0000_0000_0000);
    }
    if n >= 0 || (q0 as i128) * (d as i128) == n as i128 {
        q0
    } else {
        q0 - 1
    }
}

/// Transitivity of `<=` on fractions with positive denominators, stated on
/// raw numerator/denominator pairs.
pub proof fn lemma_frac_le_trans(an: int, ad: int, bn: int, bd: int, cn: int, cd: int)
    by (nonlinear_arith)
    requires
        ad >= 1,
        bd >= 1,
        cd >= 1,
        an * bd <= bn * ad,
        bn * cd <= cn * bd,
    ensures
        an * cd <= cn * ad,
{
}

pub proof fn lemma_frac_le_lt_trans(an: int, ad: int, bn: int, bd: int, cn: int, cd: int)
    by (nonlinear_arith)
    requires
        ad >= 1,
        bd >= 1,
        cd >= 1,
        an * bd <= bn * ad,
        bn * cd < cn * bd,
    ensures
        an * cd < cn * ad,
{
}

pub proof fn lemma_frac_lt_le_trans(an: int, ad: int, bn: int, bd: int, cn: int, cd: int)
    by (nonlinear_arith)
    requires
        ad >= 1,
        bd >= 1,
        cd >= 1,
        an * bd < bn * ad,
        bn * cd <= cn * bd,
    ensures
        an * cd < cn * ad,
{
}

/// Multiplying both sides of `a <= b` by a nonnegative factor.
pub proof fn lemma_mul_le_mono(a: int, b: int, c: int)
    by (nonlinear_arith)
    requires
        a <= b,
        c >= 0,
    ensures
        a * c <= b * c,
{
}

/// `r` is the floor square root of `n`.
pub open spec fn is_isqrt(n: int, r: int) -> bool {
    &&& 0 <= r
    &&& r * r <= n
    &&& n < (r + 1) * (r + 1)
}

/// The floor square root, uniquely characterized by `is_isqrt`.
pub open spec fn spec_isqrt(n: int) -> int {
    choose|r: int| is_isqrt(n, r)
}

pub proof fn lemma_isqrt_exists(n: int)
    requires
        n >= 0,
    ensures
        is_isqrt(n, spec_isqrt(n)),
    decreases n,
{
    if n == 0 {
        assert(is_isqrt(0, 0)) by (nonlinear_arith);
    } else {
        lemma_isqrt_exists(n - 1);
        let r = spec_isqrt(n - 1);
        if (r + 1) * (r + 1) <= n {
            assert(is_isqrt(n, r + 1)) by (nonlinear_arith)
                requires
                    is_isqrt(n - 1, r),
                    (r + 1) * (r + 1) <= n,
            ;
        } else {
            assert(is_isqrt(n, r));
        }
    }
}

pub proof fn lemma_isqrt_unique(n: int, r: int)
    by (nonlinear_arith)
    requires
        is_isqrt(n, r),
        is_isqrt(n, spec_isqrt(n)),
    ensures
        r == spec_isqrt(n),
{
}

/// Floor square root by binary search.
pub fn isqrt(n: u128) -> (r: u64)
    requires
        n < 0x4000_0000_0000_0000_0000_0000_0000_0000,
    ensures
        is_isqrt(n as int, r as int),
        r as int == spec_isqrt(n as int),
{
    let mut lo: u64 = 0;
    let mut hi: u64 = 0x7FFF_FFFF_FFFF_FFFF;
    proof {
        assert((n as int) < (hi as int + 1) * (hi as int + 1)) by (nonlinear_arith)
            requires
                n < 0x4000_0000_0000_0000_0000_0000_0000_0000,
                hi == 0x7FFF_FFFF_FFFF_FFFF,
        ;
    }
    while lo < hi
        invariant
            lo <= hi,
            hi <= 0x7FFF_FFFF_FFFF_FFFF,
            (lo as int) * (lo as int) <= n as int,
            (n as int) < (hi as int + 1) * (hi as int + 1),
        decreases hi - lo,
    {
        let mid = lo + (hi - lo + 1) / 2;
        proof {
            lemma_mul_bound(mid as int, mid as int, 0x7FFF_FFFF_FFFF_FFFF, 0x7FFF_FFFF_FFFF_FFFF);
        }
        let sq = (mid as u128) * (mid as u128);
        if sq <= n {
            lo = mid;
        } else {
            hi = mid - 1;
        }
    }
    proof {
        lemma_isqrt_exists(n as int);
        lemma_isqrt_unique(n as int, lo as int);
    }
    lo
}

} // verus!
