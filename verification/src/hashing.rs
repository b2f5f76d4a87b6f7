//! Double-hashing parameters: a 64-bit mixer seeded by key and sub-array
//! capacity, a probe-step adjustment that forces the step coprime to the
//! capacity, and the probe-index arithmetic shared by insertion and lookup.

use vstd::prelude::*;

verus! {

/// Greatest common divisor by Euclid's rule.
pub open spec fn gcd_spec(a: nat, b: nat) -> nat
    decreases b,
{
    if b == 0 {
        a
    } else {
        gcd_spec(b, a % b)
    }
}

/// `gcd_spec(1, n) == 1` for every `n`.
pub proof fn lemma_gcd_one(n: nat)
    ensures
        gcd_spec(1, n) == 1,
{
    if n == 0 {
        assert(gcd_spec(1, n) == 1);
    } else if n == 1 {
        assert(gcd_spec(1, 1) == gcd_spec(1, 0));
    } else {
        vstd::arithmetic::div_mod::lemma_small_mod(1, n);
        assert(gcd_spec(1, n) == gcd_spec(n, 1));
        assert(gcd_spec(n, 1) == gcd_spec(1, 0));
    }
}

/// Greatest common divisor of two machine words.
pub fn gcd(a: u64, b: u64) -> (r: u64)
    ensures
        r == gcd_spec(a as nat, b as nat),
{
    let mut x = a;
    let mut y = b;
    while y != 0
        invariant
            gcd_spec(x as nat, y as nat) == gcd_spec(a as nat, b as nat),
        decreases y,
    {
        let t = y;
        y = x % t;
        x = t;
    }
    x
}

/// A well-mixing 64-bit hash of a key, seeded by the sub-array capacity so
/// that the same key probes independently in differently sized sub-arrays.
pub open spec fn spec_mix(key: u64, cap: u64) -> u64 {
    let s0 = key ^ (cap << 32) ^ (cap >> 32) ^ 0x9E37_79B9_7F4A_7C15u64;
    let s1 = s0 ^ (s0 << 13);
    let s2 = s1 ^ (s1 >> 7);
    let s3 = s2 ^ (s2 << 17);
    let s4 = s3 ^ (s3 << 13);
    let s5 = s4 ^ (s4 >> 7);
    s5 ^ (s5 << 17)
}

/// Executable form of `spec_mix`.
pub fn mix(key: u64, cap: u64) -> (r: u64)
    ensures
        r == spec_mix(key, cap),
{
    let s0 = key ^ (cap << 32) ^ (cap >> 32) ^ 0x9E37_79B9_7F4A_7C15u64;
    let s1 = s0 ^ (s0 << 13);
    let s2 = s1 ^ (s1 >> 7);
    let s3 = s2 ^ (s2 << 17);
    let s4 = s3 ^ (s3 << 13);
    let s5 = s4 ^ (s4 >> 7);
    s5 ^ (s5 << 17)
}

/// Walks odd candidate steps upward (wrapping to 1 past the top of the range)
/// until one is coprime to `cap`. An even argument is out of the intended
/// domain and maps to the always-coprime step 1.
pub open spec fn adjust_step(h2: u64, cap: u64) -> u64
    decreases (if h2 == 0 { 0int } else { (0x1_0000_0000_0000_0001 - h2 as int) / 2 }),
{
    if h2 % 2 == 0 {
        1u64
    } else if gcd_spec(h2 as nat, cap as nat) == 1 {
        h2
    } else if h2 == 0xFFFF_FFFF_FFFF_FFFFu64 {
        1u64
    } else {
        adjust_step((h2 + 2) as u64, cap)
    }
}

/// The adjusted step is always coprime to `cap`.
pub proof fn lemma_adjust_step_coprime(h2: u64, cap: u64)
    ensures
        gcd_spec(adjust_step(h2, cap) as nat, cap as nat) == 1,
    decreases (if h2 == 0 { 0int } else { (0x1_0000_0000_0000_0001 - h2 as int) / 2 }),
{
    if h2 % 2 == 0 {
        lemma_gcd_one(cap as nat);
    } else if gcd_spec(h2 as nat, cap as nat) == 1 {
    } else if h2 == 0xFFFF_FFFF_FFFF_FFFFu64 {
        lemma_gcd_one(cap as nat);
    } else {
        lemma_adjust_step_coprime((h2 + 2) as u64, cap);
    }
}

/// Base offset of the probe sequence for `key` in an array of `cap` slots.
pub open spec fn spec_h1(key: u64, cap: u64) -> u64 {
    spec_mix(key, cap)
}

/// Probe step for `key` in an array of `cap` slots: the upper half of the
/// mixed hash, forced odd, then adjusted until coprime to `cap`.
pub open spec fn spec_h2(key: u64, cap: u64) -> u64 {
    adjust_step((spec_mix(key, cap) >> 32) | 1, cap)
}

/// Starting from an odd candidate, walk to the first step coprime to `cap`.
fn coprime_step(start: u64, cap: u64) -> (r: u64)
    requires
        start % 2 == 1,
    ensures
        r == adjust_step(start, cap),
        gcd_spec(r as nat, cap as nat) == 1,
{
    let mut h2 = start;
    let mut g = gcd(h2, cap);
    while g != 1
        invariant
            h2 % 2 == 1,
            g == gcd_spec(h2 as nat, cap as nat),
            adjust_step(h2, cap) == adjust_step(start, cap),
        decreases (if g == 1 { 0int } else { (0x1_0000_0000_0000_0001 - h2 as int) / 2 + 1 }),
    {
        if h2 == 0xFFFF_FFFF_FFFF_FFFFu64 {
            proof {
                lemma_gcd_one(cap as nat);
            }
            h2 = 1;
        } else {
            h2 = h2 + 2;
        }
        g = gcd(h2, cap);
    }
    h2
}

/// The double-hashing parameters `(h1, h2)` for `key` in an array of `cap`
/// slots; `h2` is coprime to `cap`, so the probe sequence
/// `(h1 + i * h2) % cap` visits all `cap` slots before repeating.
pub fn hash_params(key: u64, cap: u64) -> (r: (u64, u64))
    ensures
        r.0 == spec_h1(key, cap),
        r.1 == spec_h2(key, cap),
        gcd_spec(r.1 as nat, cap as nat) == 1,
{
    let full = mix(key, cap);
    let h1 = full;
    let start = (full >> 32) | 1;
    assert(((full >> 32) | 1) % 2 == 1) by (bit_vector);
    if cap == 0 {
        // every step is coprime to nothing but 1 here; short-circuit rather
        // than walking the candidate steps all the way around to 1
        proof {
            lemma_adjust_step_zero_cap(start);
            lemma_gcd_one(0);
        }
        return (h1, 1);
    }
    let h2 = coprime_step(start, cap);
    proof {
        lemma_adjust_step_coprime(start, cap);
    }
    (h1, h2)
}

/// With no slots to cover, the step adjustment always lands on 1.
pub proof fn lemma_adjust_step_zero_cap(h2: u64)
    ensures
        adjust_step(h2, 0) == 1,
{
    lemma_adjust_step_coprime(h2, 0);
}

/// Bézout's identity: the greatest common divisor is an integer combination
/// of its arguments.
pub proof fn lemma_bezout(a: nat, b: nat)
    ensures
        exists|x: int, y: int| #![trigger a * x, b * y] a * x + b * y == gcd_spec(a, b),
    decreases b,
{
    if b == 0 {
        assert(a * 1int + b * 0int == gcd_spec(a, b));
    } else {
        lemma_bezout(b, a % b);
        let (x1, y1) = choose|x1: int, y1: int| #![trigger b * x1, (a % b) * y1] b * x1 + (a % b) * y1
            == gcd_spec(b, a % b);
        vstd::arithmetic::div_mod::lemma_fundamental_div_mod(a as int, b as int);
        let q = a as int / b as int;
        assert(a * (y1) + b * (x1 - q * y1) == gcd_spec(a, b)) by (nonlinear_arith)
            requires
                b * x1 + (a % b) * y1 == gcd_spec(b, a % b),
                a as int == b * q + (a % b),
                gcd_spec(a, b) == gcd_spec(b, a % b),
        ;
    }
}

/// A probe step coprime to the capacity drives the probe sequence through
/// every slot within its first `cap` steps.
pub proof fn lemma_probe_covers(key: u64, cap: u64, s: int)
    requires
        cap > 0,
        0 <= s < cap,
    ensures
        exists|q: int| 0 <= q < cap && probe_index(key, cap, q) == s,
{
    let h1 = spec_h1(key, cap) as int;
    let h2 = spec_h2(key, cap) as int;
    let c = cap as int;
    lemma_adjust_step_coprime((spec_mix(key, cap) >> 32) | 1, cap);
    lemma_bezout(h2 as nat, cap as nat);
    let (x, y) = choose|x: int, y: int|
        #![trigger (h2 as nat) * x, (cap as nat) * y]
        (h2 as nat) * x + (cap as nat) * y == gcd_spec(h2 as nat, cap as nat);
    assert(h2 * x + c * y == 1);
    let d = (s - h1) % c;
    let q = (d * x) % c;
    assert(0 <= d < c);
    assert(0 <= q < c);
    vstd::arithmetic::div_mod::lemma_mul_mod_noop_left(d * x, h2, c);
    assert(d * x * h2 == d + c * (0 - d * y)) by (nonlinear_arith)
        requires
            h2 * x + c * y == 1,
    ;
    vstd::arithmetic::div_mod::lemma_mod_multiples_vanish(0 - d * y, d, c);
    vstd::arithmetic::div_mod::lemma_small_mod(d as nat, c as nat);
    assert(q * h2 % c == d);
    vstd::arithmetic::div_mod::lemma_add_mod_noop(h1, q * h2, c);
    vstd::arithmetic::div_mod::lemma_add_mod_noop(h1, d, c);
    assert((h1 + q * h2) % c == (h1 + d) % c);
    vstd::arithmetic::div_mod::lemma_add_mod_noop(h1, s - h1, c);
    vstd::arithmetic::div_mod::lemma_small_mod(s as nat, c as nat);
    assert((h1 + d) % c == s);
    assert(probe_index(key, cap, q) == s);
}

/// The slot probed at step `i` of `key`'s probe sequence.
pub open spec fn probe_index(key: u64, cap: u64, i: int) -> int
    recommends
        cap > 0,
        i >= 0,
{
    (spec_h1(key, cap) + i * spec_h2(key, cap)) % (cap as int)
}

/// Computes the probed slot from previously derived hash parameters.
pub fn probe_slot(h1: u64, h2: u64, cap: usize, i: usize) -> (r: usize)
    requires
        cap > 0,
    ensures
        r == (h1 + (i as int) * h2) % (cap as int),
        r < cap,
{
    proof {
        assert((i as u128) * (h2 as u128) <= 0xFFFF_FFFF_FFFF_FFFFu128 * 0xFFFF_FFFF_FFFF_FFFFu128)
            by (nonlinear_arith)
            requires
                i as u128 <= 0xFFFF_FFFF_FFFF_FFFFu128,
                h2 as u128 <= 0xFFFF_FFFF_FFFF_FFFFu128,
        ;
    }
    let sum: u128 = (h1 as u128) + (i as u128) * (h2 as u128);
    let idx: u128 = sum % (cap as u128);
    idx as usize
}

} // verus!
