//! Bounds on a power of the ratio of two bytes, each held as a mantissa of 64 bits and an
//! exponent: the bound is `mant * 2^exp / 2^63`.
//!
//! The power is taken by squaring, so a bound costs a number of steps that grows with the
//! length of the exponent, not with the exponent. One bound rounds down at every step and
//! the other rounds up, so the power lies between them.

use vstd::arithmetic::power::*;
use vstd::arithmetic::power2::*;
use vstd::prelude::*;

verus! {

/// The scale of a mantissa: `2^63`.
pub const SCALE: u64 = 0x8000_0000_0000_0000;

/// The exponent from which on a bound is given up rather than squared.
pub const ROOM: u128 = 0x1_0000_0000_0000_0000_0000_0000_0000;

/// `mant * 2^exp / 2^63` is at most `(s / m)^h`.
pub open spec fn is_below(mant: int, exp: nat, s: int, m: int, h: nat) -> bool {
    mant * pow2(exp) * pow(m, h) <= pow(s, h) * SCALE
}

/// `mant * 2^exp / 2^63` is at least `(s / m)^h`.
pub open spec fn is_above(mant: int, exp: nat, s: int, m: int, h: nat) -> bool {
    pow(s, h) * SCALE <= mant * pow2(exp) * pow(m, h)
}

proof fn lemma_square_below(a: int, x: int, mm: int, nn: int, q: int)
    requires
        0 <= a,
        0 <= x,
        0 <= mm,
        0 <= nn,
        0 <= q,
        a * x * mm <= nn * SCALE,
        q * SCALE <= a * a,
    ensures
        q * (x * x) * (mm * mm) <= (nn * nn) * SCALE,
{
    let c = SCALE as int;
    let u = a * x * mm;
    let v = nn * c;
    let k = (x * x) * (mm * mm);
    assert(0 <= u) by (nonlinear_arith)
        requires
            u == a * x * mm,
            0 <= a,
            0 <= x,
            0 <= mm,
    ;
    assert(u * u <= v * v) by (nonlinear_arith)
        requires
            0 <= u <= v,
    ;
    assert(u * u == (a * a) * k) by (nonlinear_arith)
        requires
            u == a * x * mm,
            k == (x * x) * (mm * mm),
    ;
    assert(v * v == ((nn * nn) * c) * c) by (nonlinear_arith)
        requires
            v == nn * c,
    ;
    assert(0 <= k) by (nonlinear_arith)
        requires
            k == (x * x) * (mm * mm),
    ;
    assert((q * c) * k <= (a * a) * k) by (nonlinear_arith)
        requires
            q * c <= a * a,
            0 <= k,
    ;
    assert((q * k) * c == (q * c) * k) by (nonlinear_arith);
    assert(q * k <= (nn * nn) * c) by (nonlinear_arith)
        requires
            (q * k) * c <= ((nn * nn) * c) * c,
            c > 0,
    ;
    assert(q * (x * x) * (mm * mm) == q * k) by (nonlinear_arith)
        requires
            k == (x * x) * (mm * mm),
    ;
}

proof fn lemma_square_above(a: int, x: int, mm: int, nn: int, q: int)
    requires
        0 <= a,
        0 <= x,
        0 <= mm,
        0 <= nn,
        0 <= q,
        nn * SCALE <= a * x * mm,
        a * a <= q * SCALE,
    ensures
        (nn * nn) * SCALE <= q * (x * x) * (mm * mm),
{
    let c = SCALE as int;
    let u = a * x * mm;
    let v = nn * c;
    let k = (x * x) * (mm * mm);
    assert(0 <= v) by (nonlinear_arith)
        requires
            v == nn * c,
            0 <= nn,
            0 <= c,
    ;
    assert(v * v <= u * u) by (nonlinear_arith)
        requires
            0 <= v <= u,
    ;
    assert(u * u == (a * a) * k) by (nonlinear_arith)
        requires
            u == a * x * mm,
            k == (x * x) * (mm * mm),
    ;
    assert(v * v == ((nn * nn) * c) * c) by (nonlinear_arith)
        requires
            v == nn * c,
    ;
    assert(0 <= k) by (nonlinear_arith)
        requires
            k == (x * x) * (mm * mm),
    ;
    assert((a * a) * k <= (q * c) * k) by (nonlinear_arith)
        requires
            a * a <= q * c,
            0 <= k,
    ;
    assert((q * k) * c == (q * c) * k) by (nonlinear_arith);
    assert((nn * nn) * c <= q * k) by (nonlinear_arith)
        requires
            ((nn * nn) * c) * c <= (q * k) * c,
            c > 0,
    ;
    assert(q * (x * x) * (mm * mm) == q * k) by (nonlinear_arith)
        requires
            k == (x * x) * (mm * mm),
    ;
}

proof fn lemma_times_below(q: int, x: int, mm: int, nn: int, s: int, m: int, t: int)
    requires
        0 <= q,
        0 <= x,
        0 <= mm,
        0 <= nn,
        0 <= s,
        0 <= m,
        0 <= t,
        q * x * mm <= nn * SCALE,
        t * m <= q * s,
    ensures
        t * x * (mm * m) <= (nn * s) * SCALE,
{
    let c = SCALE as int;
    let k = x * mm;
    assert(0 <= k) by (nonlinear_arith)
        requires
            k == x * mm,
            0 <= x,
            0 <= mm,
    ;
    assert((t * m) * k <= (q * s) * k) by (nonlinear_arith)
        requires
            t * m <= q * s,
            0 <= k,
    ;
    assert((q * s) * k == s * (q * x * mm)) by (nonlinear_arith)
        requires
            k == x * mm,
    ;
    assert(s * (q * x * mm) <= s * (nn * c)) by (nonlinear_arith)
        requires
            q * x * mm <= nn * c,
            0 <= s,
    ;
    assert(t * x * (mm * m) == (t * m) * k) by (nonlinear_arith)
        requires
            k == x * mm,
    ;
    assert(s * (nn * c) == (nn * s) * c) by (nonlinear_arith);
}

proof fn lemma_times_above(q: int, x: int, mm: int, nn: int, s: int, m: int, t: int)
    requires
        0 <= q,
        0 <= x,
        0 <= mm,
        0 <= nn,
        0 <= s,
        0 <= m,
        0 <= t,
        nn * SCALE <= q * x * mm,
        q * s <= t * m,
    ensures
        (nn * s) * SCALE <= t * x * (mm * m),
{
    let c = SCALE as int;
    let k = x * mm;
    assert(0 <= k) by (nonlinear_arith)
        requires
            k == x * mm,
            0 <= x,
            0 <= mm,
    ;
    assert((q * s) * k <= (t * m) * k) by (nonlinear_arith)
        requires
            q * s <= t * m,
            0 <= k,
    ;
    assert((q * s) * k == s * (q * x * mm)) by (nonlinear_arith)
        requires
            k == x * mm,
    ;
    assert(s * (nn * c) <= s * (q * x * mm)) by (nonlinear_arith)
        requires
            nn * c <= q * x * mm,
            0 <= s,
    ;
    assert(t * x * (mm * m) == (t * m) * k) by (nonlinear_arith)
        requires
            k == x * mm,
    ;
    assert(s * (nn * c) == (nn * s) * c) by (nonlinear_arith);
}

proof fn lemma_halve_below(q: int, x: int, mm: int, half: int)
    requires
        0 <= half,
        0 <= x,
        0 <= mm,
        half * 2 <= q,
    ensures
        half * (2 * x) * mm <= q * x * mm,
{
    let k = x * mm;
    assert(0 <= k) by (nonlinear_arith)
        requires
            k == x * mm,
            0 <= x,
            0 <= mm,
    ;
    assert((half * 2) * k <= q * k) by (nonlinear_arith)
        requires
            half * 2 <= q,
            0 <= k,
    ;
    assert(half * (2 * x) * mm == (half * 2) * k) by (nonlinear_arith)
        requires
            k == x * mm,
    ;
    assert(q * x * mm == q * k) by (nonlinear_arith)
        requires
            k == x * mm,
    ;
}

proof fn lemma_halve_above(q: int, x: int, mm: int, half: int)
    requires
        0 <= half,
        0 <= x,
        0 <= mm,
        q <= half * 2,
    ensures
        q * x * mm <= half * (2 * x) * mm,
{
    let k = x * mm;
    assert(0 <= k) by (nonlinear_arith)
        requires
            k == x * mm,
            0 <= x,
            0 <= mm,
    ;
    assert(q * k <= (half * 2) * k) by (nonlinear_arith)
        requires
            q <= half * 2,
            0 <= k,
    ;
    assert(half * (2 * x) * mm == (half * 2) * k) by (nonlinear_arith)
        requires
            k == x * mm,
    ;
    assert(q * x * mm == q * k) by (nonlinear_arith)
        requires
            k == x * mm,
    ;
}

/// The powers and the weight of an exponent that was doubled, and raised by one where
/// `odd` says so.
proof fn lemma_doubled_exponent(s: int, m: int, e: nat, x: nat)
    ensures
        pow(s, e + e) == pow(s, e) * pow(s, e),
        pow(m, e + e) == pow(m, e) * pow(m, e),
        pow(s, e + e + 1) == pow(s, e + e) * s,
        pow(m, e + e + 1) == pow(m, e + e) * m,
        pow2(x + x) == pow2(x) * pow2(x),
        pow2(x + 1) == 2 * pow2(x),
{
    lemma_pow_adds(s, e, e);
    lemma_pow_adds(m, e, e);
    lemma_pow_adds(s, e + e, 1);
    lemma_pow_adds(m, e + e, 1);
    lemma_pow1(s);
    lemma_pow1(m);
    lemma_pow2_adds(x, x);
    lemma_pow2_unfold(x + 1);
}

/// A bound from below on `(s / m)^h`, or nothing where the exponent has no room.
pub fn bound_below(s: u8, m: u8, h: usize) -> (b: Option<(u64, u128)>)
    requires
        1 <= m <= s,
    ensures
        b matches Some(f) ==> f.0 >= SCALE && is_below(
            f.0 as int,
            f.1 as nat,
            s as int,
            m as int,
            h as nat,
        ),
    decreases h,
{
    if h == 0 {
        proof {
            lemma_pow0(s as int);
            lemma_pow0(m as int);
            lemma2_to64();
        }
        return Some((SCALE, 0));
    }
    let (a, x) = match bound_below(s, m, h / 2) {
        Some(f) => f,
        None => {
            return None;
        },
    };
    if x >= ROOM {
        return None;
    }
    let ghost e = (h / 2) as nat;
    let ghost xx = pow2(x as nat) as int;
    let ghost mm = pow(m as int, e);
    let ghost nn = pow(s as int, e);
    proof {
        lemma_pow_positive(m as int, e);
        lemma_pow_positive(s as int, e);
        lemma_pow_positive(m as int, e + e);
        lemma_pow_positive(s as int, e + e);
        lemma_doubled_exponent(s as int, m as int, e, x as nat);
        lemma_pow2_pos(x as nat);
        assert(a * a < 0x1_0000_0000_0000_0000 * 0x1_0000_0000_0000_0000) by (nonlinear_arith)
            requires
                0 <= a < 0x1_0000_0000_0000_0000,
        ;
        assert(a * a >= 0x8000_0000_0000_0000 * 0x8000_0000_0000_0000) by (nonlinear_arith)
            requires
                a >= 0x8000_0000_0000_0000,
        ;
    }
    let p: u128 = (a as u128) * (a as u128);
    let mut q: u128 = p / (SCALE as u128);
    let mut exp: u128 = x + x;
    assert(p >= 0x4000_0000_0000_0000_0000_0000_0000_0000);
    assert(0x8000_0000_0000_0000 <= q < 0x2_0000_0000_0000_0000);
    proof {
        assert(q * 0x8000_0000_0000_0000 <= p);
        lemma_square_below(a as int, xx, mm, nn, q as int);
        assert(is_below(q as int, exp as nat, s as int, m as int, e + e));
    }
    if h % 2 == 1 {
        assert(q * s < 0x2_0000_0000_0000_0000 * 256) by (nonlinear_arith)
            requires
                0 <= q < 0x2_0000_0000_0000_0000,
                0 <= s < 256,
        ;
        let t: u128 = q * (s as u128) / (m as u128);
        proof {
            assert(t * m <= q * s && t >= q) by (nonlinear_arith)
                requires
                    t == (q * s) / (m as int),
                    1 <= m <= s,
                    0 <= q,
            ;
            lemma_times_below(
                q as int,
                pow2(exp as nat) as int,
                pow(m as int, e + e),
                pow(s as int, e + e),
                s as int,
                m as int,
                t as int,
            );
            lemma_pow2_pos(exp as nat);
            assert(is_below(t as int, exp as nat, s as int, m as int, e + e + 1));
        }
        q = t;
    }
    assert(h == e + e + (h % 2));
    while q >= 0x1_0000_0000_0000_0000
        invariant
            q >= SCALE,
            1 <= m <= s,
            is_below(q as int, exp as nat, s as int, m as int, h as nat),
        decreases q,
    {
        if exp == u128::MAX {
            return None;
        }
        proof {
            lemma_pow2_pos(exp as nat);
            lemma_pow2_unfold((exp + 1) as nat);
            lemma_pow_positive(m as int, h as nat);
            lemma_halve_below(
                q as int,
                pow2(exp as nat) as int,
                pow(m as int, h as nat),
                (q / 2) as int,
            );
        }
        q = q / 2;
        exp = exp + 1;
    }
    Some((q as u64, exp))
}

/// A bound from above on `(s / m)^h`, or nothing where the exponent has no room.
pub fn bound_above(s: u8, m: u8, h: usize) -> (b: Option<(u64, u128)>)
    requires
        1 <= m <= s,
    ensures
        b matches Some(f) ==> is_above(f.0 as int, f.1 as nat, s as int, m as int, h as nat),
    decreases h,
{
    if h == 0 {
        proof {
            lemma_pow0(s as int);
            lemma_pow0(m as int);
            lemma2_to64();
        }
        return Some((SCALE, 0));
    }
    let (a, x) = match bound_above(s, m, h / 2) {
        Some(f) => f,
        None => {
            return None;
        },
    };
    if x >= ROOM {
        return None;
    }
    let ghost e = (h / 2) as nat;
    let ghost xx = pow2(x as nat) as int;
    let ghost mm = pow(m as int, e);
    let ghost nn = pow(s as int, e);
    proof {
        lemma_pow_positive(m as int, e);
        lemma_pow_positive(s as int, e);
        lemma_pow_positive(m as int, e + e);
        lemma_pow_positive(s as int, e + e);
        lemma_doubled_exponent(s as int, m as int, e, x as nat);
        lemma_pow2_pos(x as nat);
        assert(a * a < 0x1_0000_0000_0000_0000 * 0x1_0000_0000_0000_0000) by (nonlinear_arith)
            requires
                0 <= a < 0x1_0000_0000_0000_0000,
        ;
    }
    let p: u128 = (a as u128) * (a as u128);
    let mut q: u128 = p / (SCALE as u128) + 1;
    let mut exp: u128 = x + x;
    assert(q <= 0x2_0000_0000_0000_0000);
    proof {
        assert(p <= q * 0x8000_0000_0000_0000);
        lemma_square_above(a as int, xx, mm, nn, q as int);
        assert(is_above(q as int, exp as nat, s as int, m as int, e + e));
    }
    if h % 2 == 1 {
        assert(q * s <= 0x2_0000_0000_0000_0000 * 256) by (nonlinear_arith)
            requires
                0 <= q <= 0x2_0000_0000_0000_0000,
                0 <= s < 256,
        ;
        assert((q * s) / (m as int) <= q * s) by (nonlinear_arith)
            requires
                0 <= q * s,
                1 <= m,
        ;
        let t: u128 = q * (s as u128) / (m as u128) + 1;
        proof {
            assert(q * s <= t * m) by (nonlinear_arith)
                requires
                    t == (q * s) / (m as int) + 1,
                    1 <= m,
                    0 <= q,
                    0 <= s,
            ;
            lemma_times_above(
                q as int,
                pow2(exp as nat) as int,
                pow(m as int, e + e),
                pow(s as int, e + e),
                s as int,
                m as int,
                t as int,
            );
            assert(is_above(t as int, exp as nat, s as int, m as int, e + e + 1));
        }
        q = t;
    }
    assert(h == e + e + (h % 2));
    while q >= 0x1_0000_0000_0000_0000
        invariant
            1 <= m <= s,
            q < 0x1_0000_0000_0000_0000_0000,
            is_above(q as int, exp as nat, s as int, m as int, h as nat),
        decreases q,
    {
        if exp == u128::MAX {
            return None;
        }
        proof {
            lemma_pow2_pos(exp as nat);
            lemma_pow2_unfold((exp + 1) as nat);
            lemma_pow_positive(m as int, h as nat);
            lemma_halve_above(
                q as int,
                pow2(exp as nat) as int,
                pow(m as int, h as nat),
                (q / 2 + 1) as int,
            );
        }
        q = q / 2 + 1;
        exp = exp + 1;
    }
    Some((q as u64, exp))
}

} // verus!
