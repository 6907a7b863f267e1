//! How far a colour may drift, as a function of the distance from its seed.
//!
//! The drift starts at `max` next to a seed and falls towards `long`: the part above
//! `long` halves with every `halving` steps. All of it is integer arithmetic: the value
//! `span * 2^(-distance / halving)`, rounded down, is the one `r` with
//! `r^halving * 2^distance <= span^halving < (r + 1)^halving * 2^distance`. Bounds on the
//! power of the ratio decide between the candidates; where the two bounds leave a doubt,
//! the powers are taken in as many bits as they need.

use crate::ratio::bound_above;
use crate::ratio::bound_below;
use crate::ratio::is_above;
use crate::ratio::is_below;
use crate::ratio::SCALE;
use crate::wide::at_most;
use crate::wide::one;
use crate::wide::times;
use crate::wide::value;
use std::collections::HashMap;
use vstd::arithmetic::div_mod::*;
use vstd::arithmetic::mul::*;
use vstd::arithmetic::power::*;
use vstd::arithmetic::power2::*;
use vstd::prelude::*;
use vstd::std_specs::hash::*;

verus! {

/// `r^halving * 2^distance` does not exceed `span^halving`.
pub open spec fn within(span: nat, halving: nat, distance: nat, r: nat) -> bool {
    pow(r as int, halving) * pow2(distance) <= pow(span as int, halving)
}

/// `r` is `span * 2^(-distance / halving)` rounded down.
pub open spec fn is_decayed(span: nat, halving: nat, distance: nat, r: nat) -> bool {
    within(span, halving, distance, r) && !within(span, halving, distance, r + 1)
}

/// `span * 2^(-distance / halving)` rounded down.
pub open spec fn decayed(span: nat, halving: nat, distance: nat) -> nat {
    choose|r: nat| is_decayed(span, halving, distance, r)
}

/// The half-width of the drift at `distance` steps from a seed.
pub open spec fn diffusion(max: u8, long: u8, halving: nat, distance: nat) -> int {
    long + decayed((max - long) as nat, halving, distance)
}

proof fn lemma_pow_unfold(b: int, e: nat)
    requires
        e > 0,
    ensures
        pow(b, e) == b * pow(b, (e - 1) as nat),
{
    reveal(pow);
}

proof fn lemma_pow_nonnegative(b: nat, e: nat)
    ensures
        0 <= pow(b as int, e),
{
    if b == 0 {
        if e == 0 {
            lemma_pow0(0);
        } else {
            lemma0_pow(e);
        }
    } else {
        lemma_pow_positive(b as int, e);
    }
}

/// A power grows with its base.
proof fn lemma_pow_base_increases(a: nat, b: nat, e: nat)
    requires
        a <= b,
    ensures
        pow(a as int, e) <= pow(b as int, e),
    decreases e,
{
    if e == 0 {
        lemma_pow0(a as int);
        lemma_pow0(b as int);
    } else {
        let f = (e - 1) as nat;
        lemma_pow_base_increases(a, b, f);
        lemma_pow_unfold(a as int, e);
        lemma_pow_unfold(b as int, e);
        lemma_pow_nonnegative(a, f);
        lemma_mul_upper_bound(a as int, b as int, pow(a as int, f), pow(b as int, f));
    }
}

/// A power with a positive exponent grows strictly with its base.
proof fn lemma_pow_base_strictly_increases(a: nat, b: nat, e: nat)
    requires
        a < b,
        e > 0,
    ensures
        pow(a as int, e) < pow(b as int, e),
{
    let f = (e - 1) as nat;
    lemma_pow_base_increases(a, b, f);
    lemma_pow_unfold(a as int, e);
    lemma_pow_unfold(b as int, e);
    lemma_pow_nonnegative(a, f);
    lemma_pow_positive(b as int, f);
    let pa = pow(a as int, f);
    let pb = pow(b as int, f);
    assert(a * pa < b * pb) by (nonlinear_arith)
        requires
            0 <= a < b,
            0 <= pa <= pb,
            0 < pb,
    ;
}

/// Once `r` is too large, every larger value is too.
proof fn lemma_within_is_downward(span: nat, halving: nat, distance: nat, r: nat, s: nat)
    requires
        r <= s,
        within(span, halving, distance, s),
    ensures
        within(span, halving, distance, r),
{
    lemma_pow_base_increases(r, s, halving);
    lemma_pow_nonnegative(r, halving);
    lemma_mul_inequality(pow(r as int, halving), pow(s as int, halving), pow2(distance) as int);
}

/// At most one value is the rounded-down decay.
pub proof fn lemma_decayed_unique(span: nat, halving: nat, distance: nat, r: nat, s: nat)
    requires
        is_decayed(span, halving, distance, r),
        is_decayed(span, halving, distance, s),
    ensures
        r == s,
{
    if r < s {
        lemma_within_is_downward(span, halving, distance, r + 1, s);
    }
    if s < r {
        lemma_within_is_downward(span, halving, distance, s + 1, r);
    }
}

proof fn lemma_boundary(span: nat, halving: nat, distance: nat, m: nat) -> (r: nat)
    requires
        halving > 0,
        !within(span, halving, distance, m + 1),
    ensures
        is_decayed(span, halving, distance, r),
        r <= m,
    decreases m,
{
    if within(span, halving, distance, m) {
        m
    } else {
        if m == 0 {
            lemma0_pow(halving);
            lemma_pow_nonnegative(span, halving);
            assert(pow(0, halving) * pow2(distance) == 0) by (nonlinear_arith)
                requires
                    pow(0, halving) == 0,
            ;
            assert(false);
            0
        } else {
            lemma_boundary(span, halving, distance, (m - 1) as nat)
        }
    }
}

/// For a positive halving distance the rounded-down decay exists: it is at most `span`, its
/// `halving`-th power times `2^distance` stays within `span^halving`, and that of its
/// successor does not.
pub proof fn lemma_decayed_is_floor(span: nat, halving: nat, distance: nat)
    requires
        halving > 0,
    ensures
        is_decayed(span, halving, distance, decayed(span, halving, distance)),
        decayed(span, halving, distance) <= span,
{
    lemma_pow_base_strictly_increases(span, span + 1, halving);
    lemma_pow2_pos(distance);
    lemma_pow_nonnegative(span + 1, halving);
    let top = pow((span + 1) as int, halving);
    let k = pow2(distance) as int;
    assert(top <= top * k) by (nonlinear_arith)
        requires
            0 <= top,
            1 <= k,
    ;
    let r = lemma_boundary(span, halving, distance, span);
    lemma_decayed_unique(span, halving, distance, r, decayed(span, halving, distance));
}

/// Nothing is lost at a seed: at distance 0 the whole span is left.
pub proof fn lemma_decayed_at_seed(span: nat, halving: nat)
    requires
        halving > 0,
    ensures
        decayed(span, halving, 0) == span,
{
    lemma_decayed_is_floor(span, halving, 0);
    lemma2_to64();
    lemma_pow_base_strictly_increases(span, span + 1, halving);
    assert(pow(span as int, halving) * 1 == pow(span as int, halving));
    assert(pow((span + 1) as int, halving) * 1 == pow((span + 1) as int, halving));
    assert(is_decayed(span, halving, 0, span));
    lemma_decayed_unique(span, halving, 0, span, decayed(span, halving, 0));
}

/// The decay never grows with the distance.
pub proof fn lemma_decayed_falls(span: nat, halving: nat, near: nat, far: nat)
    requires
        halving > 0,
        near <= far,
    ensures
        decayed(span, halving, far) <= decayed(span, halving, near),
{
    lemma_decayed_is_floor(span, halving, near);
    lemma_decayed_is_floor(span, halving, far);
    let rn = decayed(span, halving, near);
    let rf = decayed(span, halving, far);
    if rn < rf {
        lemma_within_is_downward(span, halving, far, rn + 1, rf);
        let p = pow((rn + 1) as int, halving);
        lemma_pow_nonnegative(rn + 1, halving);
        if near < far {
            lemma_pow2_strictly_increases(near, far);
        }
        lemma_mul_inequality(pow2(near) as int, pow2(far) as int, p);
        lemma_mul_is_commutative(p, pow2(near) as int);
        lemma_mul_is_commutative(p, pow2(far) as int);
        assert(false);
    }
}

/// After eight halvings nothing of a byte is left.
pub proof fn lemma_decayed_spent(span: nat, halving: nat, distance: nat)
    requires
        span <= 255,
        halving > 0,
        distance >= 8 * halving,
    ensures
        decayed(span, halving, distance) == 0,
{
    lemma_decayed_is_floor(span, halving, distance);
    lemma_pow_nonnegative(span, halving);
    lemma0_pow(halving);
    lemma1_pow(halving);
    assert(pow(0, halving) * pow2(distance) == 0) by (nonlinear_arith)
        requires
            pow(0, halving) == 0,
    ;
    lemma_pow_base_strictly_increases(span, 256, halving);
    lemma2_to64();
    lemma_pow2(8);
    lemma_pow_multiplies(2, 8, halving);
    lemma_pow2(8 * halving);
    lemma_pow_increases(2, 8 * halving, distance);
    lemma_pow2(distance);
    assert(pow(1, halving) * pow2(distance) == pow2(distance)) by (nonlinear_arith)
        requires
            pow(1, halving) == 1,
    ;
    assert(is_decayed(span, halving, distance, 0));
    lemma_decayed_unique(span, halving, distance, 0, decayed(span, halving, distance));
}

/// Every `halving` steps halve what is left: the decay at `whole` halving distances and
/// `rest` steps is the decay at `rest` steps, halved `whole` times and rounded down.
pub proof fn lemma_decayed_halves(span: nat, halving: nat, whole: nat, rest: nat)
    requires
        halving > 0,
    ensures
        decayed(span, halving, whole * halving + rest) == decayed(span, halving, rest) / pow2(
            whole,
        ),
{
    let d = whole * halving + rest;
    lemma_decayed_is_floor(span, halving, rest);
    lemma_decayed_is_floor(span, halving, d);
    let x = decayed(span, halving, rest);
    let k = pow2(whole);
    lemma_pow2_pos(whole);
    let y = x / k;
    lemma_fundamental_div_mod(x as int, k as int);
    lemma_mod_pos_bound(x as int, k as int);
    lemma_div_pos_is_pos(x as int, k as int);
    assert(y * k <= x < (y + 1) * k) by (nonlinear_arith)
        requires
            x == k * y + (x as int % k as int),
            0 <= (x as int % k as int) < k,
    ;
    assert(0 <= y * k) by (nonlinear_arith)
        requires
            0 <= y,
            0 <= k,
    ;
    // 2^d is (2^whole)^halving * 2^rest
    lemma_pow2_adds(whole * halving, rest);
    lemma_pow2(whole * halving);
    lemma_pow2(whole);
    lemma_pow_multiplies(2, whole, halving);
    let kh = pow(k as int, halving);
    let tail = pow2(rest) as int;
    assert(pow2(d) == kh * tail);
    lemma_pow_distributes(y as int, k as int, halving);
    lemma_pow_distributes((y + 1) as int, k as int, halving);
    let low = pow(y as int, halving);
    let high = pow((y + 1) as int, halving);
    lemma_mul_is_associative(low, kh, tail);
    lemma_mul_is_associative(high, kh, tail);
    lemma_pow_base_increases((y * k) as nat, x, halving);
    lemma_pow_base_increases(x + 1, ((y + 1) * k) as nat, halving);
    lemma_mul_inequality(pow((y * k) as int, halving), pow(x as int, halving), tail);
    lemma_mul_inequality(
        pow((x + 1) as int, halving),
        pow(((y + 1) * k) as int, halving),
        tail,
    );
    assert(is_decayed(span, halving, d, y as nat));
    lemma_decayed_unique(span, halving, d, y as nat, decayed(span, halving, d));
}

/// `base` to the power `exp`, in as many limbs as it needs.
fn wide_power(base: u32, exp: usize) -> (p: Vec<u32>)
    ensures
        value(p@) == pow(base as int, exp as nat),
{
    let mut acc = one();
    let mut i: usize = 0;
    proof {
        lemma_pow0(base as int);
    }
    while i < exp
        invariant
            i <= exp,
            value(acc@) == pow(base as int, i as nat),
        decreases exp - i,
    {
        proof {
            lemma_pow_unfold(base as int, (i + 1) as nat);
            lemma_mul_is_commutative(base as int, value(acc@) as int);
        }
        acc = times(&acc, base);
        i += 1;
    }
    acc
}

/// A number doubled `count` times.
fn doubled(v: Vec<u32>, count: usize) -> (out: Vec<u32>)
    ensures
        value(out@) == value(v@) * pow2(count as nat),
{
    let ghost start = value(v@);
    let mut acc = v;
    let mut i: usize = 0;
    proof {
        lemma2_to64();
    }
    while i < count
        invariant
            i <= count,
            value(acc@) == start * pow2(i as nat),
        decreases count - i,
    {
        proof {
            lemma_pow2_unfold((i + 1) as nat);
            lemma_mul_is_associative(start as int, pow2(i as nat) as int, 2);
            lemma_mul_is_commutative(pow2(i as nat) as int, 2);
        }
        acc = times(&acc, 2);
        i += 1;
    }
    acc
}

/// A byte halved `count` times, rounded down.
fn halved(x: u8, count: usize) -> (r: u8)
    ensures
        r == x as int / pow2(count as nat) as int,
{
    let mut acc = x;
    let mut i: usize = 0;
    proof {
        lemma2_to64();
    }
    while i < count && acc > 0
        invariant
            i <= count,
            acc == x as int / pow2(i as nat) as int,
        decreases count - i,
    {
        proof {
            lemma_pow2_unfold((i + 1) as nat);
            lemma_pow2_pos(i as nat);
            lemma_div_denominator(x as int, pow2(i as nat) as int, 2);
            lemma_mul_is_commutative(pow2(i as nat) as int, 2);
        }
        acc = acc / 2;
        i += 1;
    }
    proof {
        if i < count {
            // nothing is left, and nothing will be
            lemma_pow2_pos(i as nat);
            lemma_pow2_pos(count as nat);
            lemma_pow2_strictly_increases(i as nat, count as nat);
            lemma_div_is_ordered_by_denominator(
                x as int,
                pow2(i as nat) as int,
                pow2(count as nat) as int,
            );
            lemma_div_pos_is_pos(x as int, pow2(count as nat) as int);
        }
    }
    acc
}

/// A bound from below with an exponent of at least `rest` shows that `m` is within.
proof fn lemma_below_decides(mant: int, exp: nat, span: nat, m: nat, halving: nat, rest: nat)
    requires
        mant >= SCALE,
        rest <= exp,
        is_below(mant, exp, span as int, m as int, halving),
    ensures
        within(span, halving, rest, m),
{
    let c = SCALE as int;
    let low = pow(m as int, halving);
    let high = pow(span as int, halving);
    let near = pow2(rest) as int;
    let far = pow2(exp) as int;
    lemma_pow_nonnegative(m, halving);
    lemma_pow2_pos(rest);
    if rest < exp {
        lemma_pow2_strictly_increases(rest, exp);
    }
    assert(c * near <= mant * far) by (nonlinear_arith)
        requires
            c <= mant,
            0 < near <= far,
            0 < c,
    ;
    assert((c * near) * low <= (mant * far) * low) by (nonlinear_arith)
        requires
            c * near <= mant * far,
            0 <= low,
    ;
    assert((low * near) * c == (c * near) * low) by (nonlinear_arith);
    assert(low * near <= high) by (nonlinear_arith)
        requires
            (low * near) * c <= high * c,
            c > 0,
    ;
}

/// A bound from above with an exponent below `rest` shows that `m` is not within.
proof fn lemma_above_decides(mant: int, exp: nat, span: nat, m: nat, halving: nat, rest: nat)
    requires
        0 <= mant < 2 * SCALE,
        exp < rest,
        m >= 1,
        is_above(mant, exp, span as int, m as int, halving),
    ensures
        !within(span, halving, rest, m),
{
    let c = SCALE as int;
    let low = pow(m as int, halving);
    let high = pow(span as int, halving);
    let near = pow2(rest) as int;
    let far = pow2(exp) as int;
    lemma_pow_positive(m as int, halving);
    lemma_pow2_pos(exp);
    lemma_pow2_unfold(exp + 1);
    if exp + 1 < rest {
        lemma_pow2_strictly_increases(exp + 1, rest);
    }
    assert(mant * far < c * near) by (nonlinear_arith)
        requires
            0 <= mant < 2 * c,
            0 < far,
            2 * far <= near,
    ;
    assert((mant * far) * low < (c * near) * low) by (nonlinear_arith)
        requires
            mant * far < c * near,
            0 < low,
    ;
    assert((low * near) * c == (c * near) * low) by (nonlinear_arith);
    assert(high < low * near) by (nonlinear_arith)
        requires
            high * c < (low * near) * c,
            c > 0,
    ;
}

/// Whether `m^halving * 2^rest` stays within `span^halving`. Bounds on the power of the
/// ratio decide it wherever the power is not next to `2^rest`; there the powers themselves
/// are compared, as wide numbers.
fn fits(span: u8, m: u8, halving: usize, rest: usize) -> (ok: bool)
    requires
        1 <= m <= span,
    ensures
        ok == within(span as nat, halving as nat, rest as nat, m as nat),
{
    match bound_below(span, m, halving) {
        Some((mant, exp)) => {
            if exp >= rest as u128 {
                proof {
                    lemma_below_decides(
                        mant as int,
                        exp as nat,
                        span as nat,
                        m as nat,
                        halving as nat,
                        rest as nat,
                    );
                }
                return true;
            }
        },
        None => {},
    }
    match bound_above(span, m, halving) {
        Some((mant, exp)) => {
            if exp < rest as u128 {
                proof {
                    lemma_above_decides(
                        mant as int,
                        exp as nat,
                        span as nat,
                        m as nat,
                        halving as nat,
                        rest as nat,
                    );
                }
                return false;
            }
        },
        None => {},
    }
    let whole = wide_power(span as u32, halving);
    let scaled = doubled(wide_power(m as u32, halving), rest);
    at_most(&scaled, &whole)
}

/// What is left of `span` at `rest` steps from a seed, found by bisection.
fn decay_within(span: u8, halving: usize, rest: usize) -> (r: u8)
    requires
        1 <= halving,
    ensures
        r == decayed(span as nat, halving as nat, rest as nat),
        r <= span,
{
    if rest == 0 {
        proof {
            lemma_decayed_at_seed(span as nat, halving as nat);
        }
        return span;
    }
    if span == 0 {
        proof {
            lemma_decayed_is_floor(0, halving as nat, rest as nat);
        }
        return 0;
    }
    // nothing is within at no distance, and the whole span is not within at any other
    let mut lo: u16 = 0;
    let mut hi: u16 = span as u16;
    proof {
        lemma_decayed_is_floor(span as nat, halving as nat, rest as nat);
        lemma0_pow(halving as nat);
        lemma_pow_positive(span as int, halving as nat);
        assert(pow(0, halving as nat) * pow2(rest as nat) == 0) by (nonlinear_arith)
            requires
                pow(0, halving as nat) == 0,
        ;
        lemma2_to64();
        lemma_pow2_pos(rest as nat);
        if 1 < rest {
            lemma_pow2_strictly_increases(1, rest as nat);
        }
        let top = pow(span as int, halving as nat);
        let k = pow2(rest as nat) as int;
        assert(top < top * k) by (nonlinear_arith)
            requires
                0 < top,
                2 <= k,
        ;
    }
    while hi - lo > 1
        invariant
            lo < hi <= span,
            within(span as nat, halving as nat, rest as nat, lo as nat),
            !within(span as nat, halving as nat, rest as nat, hi as nat),
        decreases hi - lo,
    {
        let mid = lo + (hi - lo) / 2;
        if fits(span, mid as u8, halving, rest) {
            lo = mid;
        } else {
            hi = mid;
        }
    }
    proof {
        lemma_decayed_unique(
            span as nat,
            halving as nat,
            rest as nat,
            lo as nat,
            decayed(span as nat, halving as nat, rest as nat),
        );
    }
    lo as u8
}

/// What is left of `span` at `distance` steps from a seed: `span * 2^(-distance / halving)`,
/// rounded down.
pub fn decay(span: u8, halving: usize, distance: usize) -> (r: u8)
    requires
        1 <= halving,
    ensures
        r == decayed(span as nat, halving as nat, distance as nat),
        r <= span,
{
    let whole = distance / halving;
    let rest = distance % halving;
    proof {
        lemma_fundamental_div_mod(distance as int, halving as int);
        lemma_mul_is_commutative(halving as int, whole as int);
        lemma_decayed_is_floor(span as nat, halving as nat, distance as nat);
    }
    if whole >= 8 {
        proof {
            assert(distance >= 8 * halving) by (nonlinear_arith)
                requires
                    distance == whole * halving + rest,
                    whole >= 8,
                    halving >= 0,
                    rest >= 0,
            ;
            lemma_decayed_spent(span as nat, halving as nat, distance as nat);
        }
        return 0;
    }
    let part = decay_within(span, halving, rest);
    proof {
        lemma_decayed_halves(span as nat, halving as nat, whole as nat, rest as nat);
    }
    halved(part, whole)
}

/// The half-width of the drift at `distance` steps from a seed:
/// `(max - long) * 2^(-distance / halving) + long`, rounded down.
pub fn diffusion_range(max: u8, long: u8, halving: usize, distance: usize) -> (range: u8)
    requires
        long <= max,
        1 <= halving,
    ensures
        range == diffusion(max, long, halving as nat, distance as nat),
        long <= range <= max,
{
    long + decay(max - long, halving, distance)
}

/// The decay of one span, worked out where it is asked for and kept from then on.
pub struct DecayTable {
    span: u8,
    halving: usize,
    parts: HashMap<usize, u8>,
}

impl DecayTable {
    /// The span that decays.
    pub closed spec fn span(&self) -> u8 {
        self.span
    }

    /// The distance over which it halves.
    pub closed spec fn halving(&self) -> usize {
        self.halving
    }

    /// The halving distance is positive, and what the table holds under a distance is the
    /// decay at that distance.
    pub closed spec fn wf(&self) -> bool {
        &&& self.halving >= 1
        &&& forall|d: usize| #[trigger]
            self.parts@.contains_key(d) ==> self.parts@[d] == decayed(
                self.span as nat,
                self.halving as nat,
                d as nat,
            )
    }

    /// A table for `span` and `halving` that holds nothing yet.
    pub fn new(span: u8, halving: usize) -> (table: DecayTable)
        requires
            1 <= halving,
        ensures
            table.wf(),
            table.span() == span,
            table.halving() == halving,
    {
        DecayTable { span, halving, parts: HashMap::new() }
    }

    /// What is left of the span at `distance` steps from a seed. The decay within one
    /// halving distance is worked out the first time it is asked for.
    pub fn at(&mut self, distance: usize) -> (r: u8)
        requires
            old(self).wf(),
        ensures
            final(self).wf(),
            final(self).span() == old(self).span(),
            final(self).halving() == old(self).halving(),
            r == decayed(old(self).span() as nat, old(self).halving() as nat, distance as nat),
            r <= old(self).span(),
    {
        broadcast use group_hash_axioms;

        let whole = distance / self.halving;
        let rest = distance % self.halving;
        proof {
            lemma_fundamental_div_mod(distance as int, self.halving as int);
            lemma_mod_pos_bound(distance as int, self.halving as int);
            lemma_mul_is_commutative(self.halving as int, whole as int);
            lemma_decayed_is_floor(self.span as nat, self.halving as nat, distance as nat);
            lemma_decayed_halves(
                self.span as nat,
                self.halving as nat,
                whole as nat,
                rest as nat,
            );
        }
        if whole >= 8 {
            proof {
                assert(distance >= 8 * self.halving) by (nonlinear_arith)
                    requires
                        distance == whole * self.halving + rest,
                        whole >= 8,
                        self.halving >= 0,
                        rest >= 0,
                ;
                lemma_decayed_spent(self.span as nat, self.halving as nat, distance as nat);
            }
            return 0;
        }
        let held = match self.parts.get(&rest) {
            Some(part) => Some(*part),
            None => None,
        };
        let part = match held {
            Some(part) => part,
            None => {
                let part = decay_within(self.span, self.halving, rest);
                self.parts.insert(rest, part);
                part
            },
        };
        halved(part, whole)
    }
}

} // verus!
