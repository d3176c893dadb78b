//! 256-bit unsigned integers, used for proof-of-work targets.
//!
//! A value is four 64-bit limbs, least significant first; its mathematical
//! value is given by [`U256::as_nat`]. All arithmetic needed by difficulty
//! retargeting is implemented and verified here.

use vstd::prelude::*;

verus! {

/// 2^64, as a specification constant.
pub open spec fn pow64() -> nat {
    0x1_0000_0000_0000_0000nat
}

/// 2^128, as a specification constant.
pub open spec fn pow128() -> nat {
    0x1_0000_0000_0000_0000_0000_0000_0000_0000nat
}

/// 2^192, as a specification constant.
pub open spec fn pow192() -> nat {
    0x1_0000_0000_0000_0000_0000_0000_0000_0000_0000_0000_0000_0000nat
}

/// 2^256, as a specification constant.
pub open spec fn pow256() -> nat {
    0x1_0000_0000_0000_0000_0000_0000_0000_0000_0000_0000_0000_0000_0000_0000_0000_0000nat
}

/// A 256-bit unsigned integer: four 64-bit limbs, least significant first.
#[derive(Debug, Clone, Copy, PartialEq, Eq, Structural)]
pub struct U256 {
    pub w0: u64,
    pub w1: u64,
    pub w2: u64,
    pub w3: u64,
}

impl U256 {
    /// The mathematical value of this integer.
    pub open spec fn as_nat(self) -> nat {
        self.w0 as nat + (self.w1 as nat) * pow64() + (self.w2 as nat) * pow128()
            + (self.w3 as nat) * pow192()
    }

    /// Zero.
    pub fn zero() -> (r: U256)
        ensures
            r.as_nat() == 0,
    {
        U256 { w0: 0, w1: 0, w2: 0, w3: 0 }
    }

    /// The easiest (numerically largest) allowed proof-of-work target, 2^240.
    pub fn min_target() -> (r: U256)
        ensures
            r.as_nat() == min_target_nat(),
    {
        U256 { w0: 0, w1: 0, w2: 0, w3: 0x1_0000_0000_0000 }
    }

    /// `self < other` as mathematical integers.
    pub fn lt(&self, other: &U256) -> (r: bool)
        ensures
            r == (self.as_nat() < other.as_nat()),
    {
        proof {
            lemma_limbs_order(*self, *other);
        }
        if self.w3 != other.w3 {
            self.w3 < other.w3
        } else if self.w2 != other.w2 {
            self.w2 < other.w2
        } else if self.w1 != other.w1 {
            self.w1 < other.w1
        } else {
            self.w0 < other.w0
        }
    }

    /// `self <= other` as mathematical integers.
    pub fn le(&self, other: &U256) -> (r: bool)
        ensures
            r == (self.as_nat() <= other.as_nat()),
    {
        !other.lt(self)
    }
}

/// The value of the easiest allowed target, 2^240.
pub open spec fn min_target_nat() -> nat {
    0x1_0000_0000_0000_0000_0000_0000_0000_0000_0000_0000_0000_0000_0000_0000_0000nat
}

/// A 320-bit unsigned integer, the intermediate width of retargeting:
/// a 256-bit target times a 64-bit elapsed time.
#[derive(Debug, Clone, Copy, PartialEq, Eq, Structural)]
pub struct U320 {
    pub w0: u64,
    pub w1: u64,
    pub w2: u64,
    pub w3: u64,
    pub w4: u64,
}

impl U320 {
    /// The mathematical value of this integer.
    pub open spec fn as_nat(self) -> nat {
        self.w0 as nat + (self.w1 as nat) * pow64() + (self.w2 as nat) * pow128()
            + (self.w3 as nat) * pow192() + (self.w4 as nat) * pow256()
    }

    /// Widen a 256-bit value.
    pub fn from_u256(v: &U256) -> (r: U320)
        ensures
            r.as_nat() == v.as_nat(),
    {
        U320 { w0: v.w0, w1: v.w1, w2: v.w2, w3: v.w3, w4: 0 }
    }

    /// Narrow to 256 bits; callable only when the value fits.
    pub fn to_u256(&self) -> (r: U256)
        requires
            self.as_nat() < pow256(),
        ensures
            r.as_nat() == self.as_nat(),
    {
        proof {
            assert(self.w4 == 0) by (nonlinear_arith)
                requires
                    self.as_nat() == self.w0 as nat + (self.w1 as nat) * pow64() + (
                    self.w2 as nat) * pow128() + (self.w3 as nat) * pow192() + (
                    self.w4 as nat) * pow256(),
                    self.as_nat() < pow256(),
            ;
        }
        U256 { w0: self.w0, w1: self.w1, w2: self.w2, w3: self.w3 }
    }

    /// `self < other` as mathematical integers.
    pub fn lt(&self, other: &U320) -> (r: bool)
        ensures
            r == (self.as_nat() < other.as_nat()),
    {
        proof {
            lemma_limbs_order_320(*self, *other);
            lemma_limbs_order_320(*other, *self);
        }
        if self.w4 != other.w4 {
            self.w4 < other.w4
        } else if self.w3 != other.w3 {
            self.w3 < other.w3
        } else if self.w2 != other.w2 {
            self.w2 < other.w2
        } else if self.w1 != other.w1 {
            self.w1 < other.w1
        } else {
            self.w0 < other.w0
        }
    }
}

/// Multiply a 256-bit value by a 64-bit one; the 320-bit result is exact.
pub fn mul_u64(v: &U256, m: u64) -> (r: U320)
    ensures
        r.as_nat() == v.as_nat() * m,
{
    let p: u128 = 0x1_0000_0000_0000_0000;
    let mm = m as u128;
    proof {
        lemma_mul_u64_bound(v.w0, m);
        lemma_mul_u64_bound(v.w1, m);
        lemma_mul_u64_bound(v.w2, m);
        lemma_mul_u64_bound(v.w3, m);
    }
    let c0: u128 = (v.w0 as u128) * mm;
    let r0: u64 = (c0 % p) as u64;
    let h0: u64 = (c0 / p) as u64;
    let c1: u128 = (v.w1 as u128) * mm + (h0 as u128);
    let r1: u64 = (c1 % p) as u64;
    let h1: u64 = (c1 / p) as u64;
    let c2: u128 = (v.w2 as u128) * mm + (h1 as u128);
    let r2: u64 = (c2 % p) as u64;
    let h2: u64 = (c2 / p) as u64;
    let c3: u128 = (v.w3 as u128) * mm + (h2 as u128);
    let r3: u64 = (c3 % p) as u64;
    let h3: u64 = (c3 / p) as u64;
    let r = U320 { w0: r0, w1: r1, w2: r2, w3: r3, w4: h3 };
    proof {
        vstd::arithmetic::div_mod::lemma_fundamental_div_mod(c0 as int, p as int);
        vstd::arithmetic::div_mod::lemma_fundamental_div_mod(c1 as int, p as int);
        vstd::arithmetic::div_mod::lemma_fundamental_div_mod(c2 as int, p as int);
        vstd::arithmetic::div_mod::lemma_fundamental_div_mod(c3 as int, p as int);
        vstd::arithmetic::div_mod::lemma_mod_bound(c0 as int, p as int);
        vstd::arithmetic::div_mod::lemma_mod_bound(c1 as int, p as int);
        vstd::arithmetic::div_mod::lemma_mod_bound(c2 as int, p as int);
        vstd::arithmetic::div_mod::lemma_mod_bound(c3 as int, p as int);
        assert(r.as_nat() == v.as_nat() * m) by (nonlinear_arith)
            requires
                c0 == (v.w0 as nat) * (m as nat),
                c1 == (v.w1 as nat) * (m as nat) + h0,
                c2 == (v.w2 as nat) * (m as nat) + h1,
                c3 == (v.w3 as nat) * (m as nat) + h2,
                c0 == (h0 as nat) * pow64() + r0,
                c1 == (h1 as nat) * pow64() + r1,
                c2 == (h2 as nat) * pow64() + r2,
                c3 == (h3 as nat) * pow64() + r3,
                v.as_nat() == v.w0 as nat + (v.w1 as nat) * pow64() + (v.w2 as nat)
                    * pow128() + (v.w3 as nat) * pow192(),
                r.as_nat() == r0 as nat + (r1 as nat) * pow64() + (r2 as nat) * pow128() + (
                r3 as nat) * pow192() + (h3 as nat) * pow256(),
                pow64() * pow64() == pow128(),
                pow64() * pow128() == pow192(),
                pow64() * pow192() == pow256(),
        ;
    }
    r
}

/// The product of two 64-bit values leaves room in 128 bits for one more
/// 64-bit addend.
proof fn lemma_mul_u64_bound(a: u64, b: u64)
    by (nonlinear_arith)
    ensures
        (a as nat) * (b as nat) <= 0xffff_ffff_ffff_fffe_0000_0000_0000_0001nat,
{
}

/// One step of schoolbook long division: divide `hi * 2^64 + lo` by `d`,
/// where the incoming remainder `hi` is already below `d`, so that the
/// quotient fits in 64 bits.
fn div_step(hi: u64, lo: u64, d: u64) -> (r: (u64, u64))
    requires
        d > 0,
        hi < d,
    ensures
        (r.0 as nat) * (d as nat) + r.1 as nat == (hi as nat) * pow64() + lo as nat,
        r.1 < d,
{
    let p: u128 = 0x1_0000_0000_0000_0000;
    proof {
        assert((hi as u128) * p + (lo as u128) < (d as u128) * p) by (nonlinear_arith)
            requires
                hi < d,
                d <= 0xffff_ffff_ffff_ffffu128,
                (lo as u128) < p,
                p == 0x1_0000_0000_0000_0000u128,
        ;
    }
    let x: u128 = (hi as u128) * p + (lo as u128);
    let dd = d as u128;
    let q: u128 = x / dd;
    let rem: u128 = x % dd;
    proof {
        vstd::arithmetic::div_mod::lemma_fundamental_div_mod(x as int, dd as int);
        vstd::arithmetic::div_mod::lemma_mod_bound(x as int, dd as int);
        vstd::arithmetic::div_mod::lemma_multiply_divide_lt(
            x as int,
            dd as int,
            pow64() as int,
        );
        vstd::arithmetic::mul::lemma_mul_is_commutative(dd as int, (x / dd) as int);
    }
    (q as u64, rem as u64)
}

/// Divide a 320-bit value by a positive 64-bit one; quotient and remainder
/// are exact.
pub fn div_u64(v: &U320, d: u64) -> (r: (U320, u64))
    requires
        d > 0,
    ensures
        (r.0.as_nat()) * (d as nat) + r.1 as nat == v.as_nat(),
        r.1 < d,
{
    let (q4, rem4) = div_step(0, v.w4, d);
    let (q3, rem3) = div_step(rem4, v.w3, d);
    let (q2, rem2) = div_step(rem3, v.w2, d);
    let (q1, rem1) = div_step(rem2, v.w1, d);
    let (q0, rem0) = div_step(rem1, v.w0, d);
    let q = U320 { w0: q0, w1: q1, w2: q2, w3: q3, w4: q4 };
    proof {
        assert((q.as_nat()) * (d as nat) + rem0 as nat == v.as_nat()) by (nonlinear_arith)
            requires
                (q4 as nat) * (d as nat) + rem4 as nat == v.w4 as nat,
                (q3 as nat) * (d as nat) + rem3 as nat == (rem4 as nat) * pow64()
                    + v.w3 as nat,
                (q2 as nat) * (d as nat) + rem2 as nat == (rem3 as nat) * pow64()
                    + v.w2 as nat,
                (q1 as nat) * (d as nat) + rem1 as nat == (rem2 as nat) * pow64()
                    + v.w1 as nat,
                (q0 as nat) * (d as nat) + rem0 as nat == (rem1 as nat) * pow64()
                    + v.w0 as nat,
                v.as_nat() == v.w0 as nat + (v.w1 as nat) * pow64() + (v.w2 as nat)
                    * pow128() + (v.w3 as nat) * pow192() + (v.w4 as nat) * pow256(),
                q.as_nat() == q0 as nat + (q1 as nat) * pow64() + (q2 as nat) * pow128() + (
                q3 as nat) * pow192() + (q4 as nat) * pow256(),
                pow64() * pow64() == pow128(),
                pow64() * pow128() == pow192(),
                pow64() * pow192() == pow256(),
        ;
    }
    (q, rem0)
}

/// The retargeting rule on mathematical integers: scale the current target
/// by `elapsed / target_seconds`, clamp the result to a factor of four in
/// either direction, and never exceed the easiest allowed target.
pub open spec fn retarget_nat(t: nat, elapsed: nat, target_seconds: nat) -> nat
    recommends
        target_seconds > 0,
{
    let raw = t * elapsed / target_seconds;
    let lo = t / 4;
    let hi = t * 4;
    let clamped = if raw < lo {
        lo
    } else if raw > hi {
        hi
    } else {
        raw
    };
    if clamped < min_target_nat() {
        clamped
    } else {
        min_target_nat()
    }
}

/// Compute the retargeting rule exactly.
pub fn retarget(target: &U256, elapsed: u64, target_seconds: u64) -> (r: U256)
    requires
        target_seconds > 0,
    ensures
        r.as_nat() == retarget_nat(target.as_nat(), elapsed as nat, target_seconds as nat),
{
    let prod = mul_u64(target, elapsed);
    let (raw, rem) = div_u64(&prod, target_seconds);
    proof {
        vstd::arithmetic::div_mod::lemma_fundamental_div_mod_converse(
            prod.as_nat() as int,
            target_seconds as int,
            raw.as_nat() as int,
            rem as int,
        );
    }
    let (lo, lo_rem) = div_u64(&U320::from_u256(target), 4);
    proof {
        vstd::arithmetic::div_mod::lemma_fundamental_div_mod_converse(
            target.as_nat() as int,
            4int,
            lo.as_nat() as int,
            lo_rem as int,
        );
    }
    let hi = mul_u64(target, 4);
    let clamped = if raw.lt(&lo) {
        lo
    } else if hi.lt(&raw) {
        hi
    } else {
        raw
    };
    let min_t = U320::from_u256(&U256::min_target());
    let capped = if clamped.lt(&min_t) {
        clamped
    } else {
        min_t
    };
    proof {
        assert(capped.as_nat() < pow256());
    }
    capped.to_u256()
}

/// Limbwise lexicographic comparison agrees with comparison of values,
/// for 320-bit integers.
proof fn lemma_limbs_order_320(a: U320, b: U320)
    ensures
        a.w4 < b.w4 ==> a.as_nat() < b.as_nat(),
        a.w4 == b.w4 && a.w3 < b.w3 ==> a.as_nat() < b.as_nat(),
        a.w4 == b.w4 && a.w3 == b.w3 && a.w2 < b.w2 ==> a.as_nat() < b.as_nat(),
        a.w4 == b.w4 && a.w3 == b.w3 && a.w2 == b.w2 && a.w1 < b.w1 ==> a.as_nat()
            < b.as_nat(),
        a.w4 == b.w4 && a.w3 == b.w3 && a.w2 == b.w2 && a.w1 == b.w1 && a.w0 < b.w0
            ==> a.as_nat() < b.as_nat(),
{
    assert(a.w4 < b.w4 ==> a.as_nat() < b.as_nat()) by (nonlinear_arith)
        requires
            a.w0 < pow64() && a.w1 < pow64() && a.w2 < pow64() && a.w3 < pow64() && a.w4
                < pow64(),
            b.w0 < pow64() && b.w1 < pow64() && b.w2 < pow64() && b.w3 < pow64() && b.w4
                < pow64(),
            a.as_nat() == a.w0 as nat + (a.w1 as nat) * pow64() + (a.w2 as nat) * pow128()
                + (a.w3 as nat) * pow192() + (a.w4 as nat) * pow256(),
            b.as_nat() == b.w0 as nat + (b.w1 as nat) * pow64() + (b.w2 as nat) * pow128()
                + (b.w3 as nat) * pow192() + (b.w4 as nat) * pow256(),
            pow64() * pow64() == pow128(),
            pow64() * pow128() == pow192(),
            pow64() * pow192() == pow256(),
    ;
    assert(a.w4 == b.w4 && a.w3 < b.w3 ==> a.as_nat() < b.as_nat()) by (nonlinear_arith)
        requires
            a.w0 < pow64() && a.w1 < pow64() && a.w2 < pow64() && a.w3 < pow64(),
            b.w0 < pow64() && b.w1 < pow64() && b.w2 < pow64() && b.w3 < pow64(),
            a.as_nat() == a.w0 as nat + (a.w1 as nat) * pow64() + (a.w2 as nat) * pow128()
                + (a.w3 as nat) * pow192() + (a.w4 as nat) * pow256(),
            b.as_nat() == b.w0 as nat + (b.w1 as nat) * pow64() + (b.w2 as nat) * pow128()
                + (b.w3 as nat) * pow192() + (b.w4 as nat) * pow256(),
            pow64() * pow64() == pow128(),
            pow64() * pow128() == pow192(),
    ;
    assert(a.w4 == b.w4 && a.w3 == b.w3 && a.w2 < b.w2 ==> a.as_nat() < b.as_nat())
        by (nonlinear_arith)
        requires
            a.w0 < pow64() && a.w1 < pow64() && b.w0 < pow64() && b.w1 < pow64(),
            a.as_nat() == a.w0 as nat + (a.w1 as nat) * pow64() + (a.w2 as nat) * pow128()
                + (a.w3 as nat) * pow192() + (a.w4 as nat) * pow256(),
            b.as_nat() == b.w0 as nat + (b.w1 as nat) * pow64() + (b.w2 as nat) * pow128()
                + (b.w3 as nat) * pow192() + (b.w4 as nat) * pow256(),
            pow64() * pow64() == pow128(),
    ;
    assert(a.w4 == b.w4 && a.w3 == b.w3 && a.w2 == b.w2 && a.w1 < b.w1 ==> a.as_nat()
        < b.as_nat()) by (nonlinear_arith)
        requires
            a.w0 < pow64() && b.w0 < pow64(),
            a.as_nat() == a.w0 as nat + (a.w1 as nat) * pow64() + (a.w2 as nat) * pow128()
                + (a.w3 as nat) * pow192() + (a.w4 as nat) * pow256(),
            b.as_nat() == b.w0 as nat + (b.w1 as nat) * pow64() + (b.w2 as nat) * pow128()
                + (b.w3 as nat) * pow192() + (b.w4 as nat) * pow256(),
    ;
}

/// Limbwise lexicographic comparison agrees with comparison of values:
/// if the most significant differing limb of `a` is below that of `b`,
/// then `a.as_nat() < b.as_nat()`, and equal limbs give equal values.
proof fn lemma_limbs_order(a: U256, b: U256)
    ensures
        a.w3 < b.w3 ==> a.as_nat() < b.as_nat(),
        a.w3 == b.w3 && a.w2 < b.w2 ==> a.as_nat() < b.as_nat(),
        a.w3 == b.w3 && a.w2 == b.w2 && a.w1 < b.w1 ==> a.as_nat() < b.as_nat(),
        a.w3 == b.w3 && a.w2 == b.w2 && a.w1 == b.w1 && a.w0 < b.w0 ==> a.as_nat()
            < b.as_nat(),
        a.w3 == b.w3 && a.w2 == b.w2 && a.w1 == b.w1 && a.w0 == b.w0 ==> a.as_nat()
            == b.as_nat(),
{
    assert(a.w3 < b.w3 ==> a.as_nat() < b.as_nat()) by (nonlinear_arith)
        requires
            a.w0 < pow64() && a.w1 < pow64() && a.w2 < pow64() && a.w3 < pow64(),
            b.w0 < pow64() && b.w1 < pow64() && b.w2 < pow64() && b.w3 < pow64(),
            a.as_nat() == a.w0 as nat + (a.w1 as nat) * pow64() + (a.w2 as nat) * pow128()
                + (a.w3 as nat) * pow192(),
            b.as_nat() == b.w0 as nat + (b.w1 as nat) * pow64() + (b.w2 as nat) * pow128()
                + (b.w3 as nat) * pow192(),
            pow64() * pow64() == pow128(),
            pow64() * pow128() == pow192(),
    ;
    assert(a.w3 == b.w3 && a.w2 < b.w2 ==> a.as_nat() < b.as_nat()) by (nonlinear_arith)
        requires
            a.w0 < pow64() && a.w1 < pow64() && a.w2 < pow64(),
            b.w0 < pow64() && b.w1 < pow64() && b.w2 < pow64(),
            a.as_nat() == a.w0 as nat + (a.w1 as nat) * pow64() + (a.w2 as nat) * pow128()
                + (a.w3 as nat) * pow192(),
            b.as_nat() == b.w0 as nat + (b.w1 as nat) * pow64() + (b.w2 as nat) * pow128()
                + (b.w3 as nat) * pow192(),
            pow64() * pow64() == pow128(),
    ;
    assert(a.w3 == b.w3 && a.w2 == b.w2 && a.w1 < b.w1 ==> a.as_nat() < b.as_nat())
        by (nonlinear_arith)
        requires
            a.w0 < pow64() && b.w0 < pow64(),
            a.as_nat() == a.w0 as nat + (a.w1 as nat) * pow64() + (a.w2 as nat) * pow128()
                + (a.w3 as nat) * pow192(),
            b.as_nat() == b.w0 as nat + (b.w1 as nat) * pow64() + (b.w2 as nat) * pow128()
                + (b.w3 as nat) * pow192(),
    ;
}

} // verus!
