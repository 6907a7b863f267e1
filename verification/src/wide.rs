//! Natural numbers of any size, held as limbs of 32 bits, the least significant first.

use vstd::prelude::*;

verus! {

/// One more than the largest limb.
pub const BASE: u64 = 0x1_0000_0000;

/// The weight of the limb at `i`: `BASE^i`.
pub open spec fn weight(i: nat) -> nat
    decreases i,
{
    if i == 0 {
        1
    } else {
        BASE as nat * weight((i - 1) as nat)
    }
}

/// The limb at `i`, which is zero beyond the end.
pub open spec fn limb(limbs: Seq<u32>, i: int) -> nat {
    if 0 <= i < limbs.len() {
        limbs[i] as nat
    } else {
        0
    }
}

/// The number that the lowest `n` limbs stand for.
pub open spec fn low_part(limbs: Seq<u32>, n: nat) -> nat
    decreases n,
{
    if n == 0 {
        0
    } else {
        low_part(limbs, (n - 1) as nat) + limb(limbs, n - 1) * weight((n - 1) as nat)
    }
}

/// The number that the limbs stand for.
pub open spec fn value(limbs: Seq<u32>) -> nat {
    low_part(limbs, limbs.len())
}

proof fn lemma_low_part_of_push(limbs: Seq<u32>, top: u32, n: nat)
    requires
        n <= limbs.len(),
    ensures
        low_part(limbs.push(top), n) == low_part(limbs, n),
    decreases n,
{
    if n > 0 {
        lemma_low_part_of_push(limbs, top, (n - 1) as nat);
    }
}

/// A limb pushed on top adds itself times the weight of its place.
pub proof fn lemma_value_of_push(limbs: Seq<u32>, top: u32)
    ensures
        value(limbs.push(top)) == value(limbs) + top * weight(limbs.len()),
{
    lemma_low_part_of_push(limbs, top, limbs.len());
}

/// Beyond the end there is nothing to add.
pub proof fn lemma_low_part_beyond(limbs: Seq<u32>, n: nat)
    requires
        limbs.len() <= n,
    ensures
        low_part(limbs, n) == value(limbs),
    decreases n,
{
    if n > limbs.len() {
        lemma_low_part_beyond(limbs, (n - 1) as nat);
        assert(limb(limbs, n - 1) * weight((n - 1) as nat) == 0) by (nonlinear_arith)
            requires
                limb(limbs, n - 1) == 0,
        ;
    }
}

/// The lowest `n` limbs stand for less than the weight of the limb at `n`.
pub proof fn lemma_low_part_bound(limbs: Seq<u32>, n: nat)
    ensures
        low_part(limbs, n) < weight(n),
    decreases n,
{
    if n > 0 {
        lemma_low_part_bound(limbs, (n - 1) as nat);
        let d = limb(limbs, n - 1);
        let w = weight((n - 1) as nat);
        assert(d * w + w <= 0x1_0000_0000 * w) by (nonlinear_arith)
            requires
                d <= 0xFFFF_FFFF,
        ;
    }
}

proof fn lemma_times_step(
    acc: nat,
    carry: nat,
    w: nat,
    low: nat,
    d: nat,
    m: nat,
    lo: nat,
    hi: nat,
)
    requires
        acc + carry * w == low * m,
        d * m + carry == hi * 0x1_0000_0000 + lo,
    ensures
        (acc + lo * w) + hi * (0x1_0000_0000 * w) == (low + d * w) * m,
{
    assert((acc + lo * w) + hi * (0x1_0000_0000 * w) == acc + (hi * 0x1_0000_0000 + lo) * w)
        by (nonlinear_arith);
    assert((low + d * w) * m == low * m + (d * m) * w) by (nonlinear_arith);
    assert((d * m + carry) * w == (d * m) * w + carry * w) by (nonlinear_arith);
}

/// The number one.
pub fn one() -> (limbs: Vec<u32>)
    ensures
        value(limbs@) == 1,
{
    let mut limbs: Vec<u32> = Vec::new();
    proof {
        lemma_value_of_push(limbs@, 1);
    }
    limbs.push(1);
    limbs
}

/// The product of a number and a single limb.
pub fn times(v: &Vec<u32>, m: u32) -> (out: Vec<u32>)
    ensures
        value(out@) == value(v@) * m,
{
    let mut out: Vec<u32> = Vec::new();
    let mut carry: u64 = 0;
    let mut i: usize = 0;
    proof {
        assert(value(out@) == 0);
        assert(low_part(v@, 0) == 0);
        assert(0 * weight(0) == 0 && 0 * m == 0) by (nonlinear_arith);
    }
    while i < v.len()
        invariant
            i <= v.len(),
            out@.len() == i,
            carry < BASE,
            value(out@) + carry * weight(i as nat) == low_part(v@, i as nat) * m,
        decreases v.len() - i,
    {
        let d = v[i];
        assert(d * m + carry <= 0xFFFF_FFFF * 0xFFFF_FFFF + 0xFFFF_FFFF) by (nonlinear_arith)
            requires
                0 <= d <= 0xFFFF_FFFF,
                0 <= m <= 0xFFFF_FFFF,
                0 <= carry <= 0xFFFF_FFFF,
        ;
        let wide: u64 = d as u64 * m as u64 + carry;
        let lo = (wide % BASE) as u32;
        let hi = wide / BASE;
        proof {
            lemma_value_of_push(out@, lo);
            lemma_times_step(
                value(out@),
                carry as nat,
                weight(i as nat),
                low_part(v@, i as nat),
                d as nat,
                m as nat,
                lo as nat,
                hi as nat,
            );
        }
        out.push(lo);
        carry = hi;
        i += 1;
    }
    if carry > 0 {
        proof {
            lemma_value_of_push(out@, carry as u32);
        }
        out.push(carry as u32);
    } else {
        assert(carry * weight(i as nat) == 0) by (nonlinear_arith)
            requires
                carry == 0,
        ;
    }
    out
}

fn limb_at(v: &Vec<u32>, i: usize) -> (d: u32)
    ensures
        d == limb(v@, i as int),
{
    if i < v.len() {
        v[i]
    } else {
        0
    }
}

/// Whether the first number is at most the second.
pub fn at_most(a: &Vec<u32>, b: &Vec<u32>) -> (le: bool)
    ensures
        le == (value(a@) <= value(b@)),
{
    let n = if a.len() < b.len() {
        b.len()
    } else {
        a.len()
    };
    proof {
        lemma_low_part_beyond(a@, n as nat);
        lemma_low_part_beyond(b@, n as nat);
    }
    let mut i = n;
    while i > 0
        invariant
            i <= n,
            low_part(a@, n as nat) == value(a@),
            low_part(b@, n as nat) == value(b@),
            low_part(a@, n as nat) - low_part(a@, i as nat) == low_part(b@, n as nat) - low_part(
                b@,
                i as nat,
            ),
        decreases i,
    {
        let x = limb_at(a, i - 1);
        let y = limb_at(b, i - 1);
        proof {
            lemma_low_part_bound(a@, (i - 1) as nat);
            lemma_low_part_bound(b@, (i - 1) as nat);
            let w = weight((i - 1) as nat);
            if x < y {
                assert(x * w + w <= y * w) by (nonlinear_arith)
                    requires
                        x + 1 <= y,
                ;
            }
            if y < x {
                assert(y * w + w <= x * w) by (nonlinear_arith)
                    requires
                        y + 1 <= x,
                ;
            }
        }
        if x < y {
            return true;
        }
        if x > y {
            return false;
        }
        i -= 1;
    }
    true
}

} // verus!
