use rand::rngs::StdRng;
use rand::RngCore;
use rand::SeedableRng;
use vstd::prelude::*;

verus! {

/// The generator of `rand` that an index draws its levels from.
#[verifier::external_type_specification]
#[verifier::external_body]
pub struct ExStdRng(StdRng);

/// `StdRng::seed_from_u64` of `rand`: a generator made from a seed. Nothing
/// is claimed of the generator that comes back.
#[verifier::external_body]
pub(crate) fn seeded_rng(seed: u64) -> (rng: StdRng) {
    StdRng::seed_from_u64(seed)
}

/// `RngCore::next_u64` of `rand` on a `StdRng`: the next 64 bits of the
/// stream. Nothing is claimed of the number that comes back.
#[verifier::external_body]
pub(crate) fn next_sample(rng: &mut StdRng) -> (sample: u64) {
    rng.next_u64()
}

/// The highest top layer that a node can have: no sample gives one above it.
pub const MAX_LEVEL: usize = 64;

/// Two to the power of 64: one more than the largest sample.
pub const SAMPLE_SPAN: u128 = 0x1_0000_0000_0000_0000;

/// `b` to the power of `e`.
pub open spec fn power(b: int, e: nat) -> int
    decreases e,
{
    if e == 0 {
        1
    } else {
        b * power(b, (e - 1) as nat)
    }
}

/// Whether `level` is the top layer that a sample gives under out-degree `m`.
///
/// A sample `s` stands for the real number `u = (s + 1) / 2^64`, which lies in
/// `(0, 1]`. The top layer is the floor of `-ln(u) / ln(m)`, the logarithm of
/// `1 / u` to the base `m`: the largest `level` with `u * m^level <= 1`. With
/// an out-degree under two there is no such scale, and every node stays on
/// layer 0.
pub open spec fn is_level(sample: u64, m: int, level: nat) -> bool {
    if m < 2 {
        level == 0
    } else {
        &&& (sample + 1) * power(m, level) <= SAMPLE_SPAN
        &&& (sample + 1) * power(m, level + 1) > SAMPLE_SPAN
    }
}

/// A power of a base of at least two is at least the same power of two.
proof fn lemma_power_grows(b: int, e: nat)
    requires
        b >= 2,
    ensures
        power(b, e) >= power(2, e) >= 1,
        power(b, e + 1) >= power(b, e),
    decreases e,
{
    if e > 0 {
        lemma_power_grows(b, (e - 1) as nat);
        let p = power(b, (e - 1) as nat);
        let q = power(2, (e - 1) as nat);
        assert(b * p >= 2 * q) by (nonlinear_arith)
            requires
                b >= 2,
                p >= q,
                q >= 1,
        ;
    }
    let r = power(b, e);
    assert(power(b, e + 1) == b * power(b, e));
    assert(b * r >= r) by (nonlinear_arith)
        requires
            b >= 2,
            r >= 1,
    ;
}

/// A power is monotone in its exponent.
proof fn lemma_power_monotone(b: int, e1: nat, e2: nat)
    requires
        b >= 2,
        e1 <= e2,
    ensures
        power(b, e1) <= power(b, e2),
    decreases e2 - e1,
{
    if e1 < e2 {
        lemma_power_monotone(b, e1, (e2 - 1) as nat);
        lemma_power_grows(b, (e2 - 1) as nat);
    }
}

/// Two to the 65th power is beyond the span of the samples.
proof fn lemma_two_to_65()
    ensures
        power(2, 65) == 2 * SAMPLE_SPAN,
{
    reveal_with_fuel(power, 17);
    assert(power(2, 16) == 0x1_0000);
    assert(power(2, 32) == 0x1_0000 * power(2, 16));
    assert(power(2, 48) == 0x1_0000 * power(2, 32));
    assert(power(2, 64) == 0x1_0000 * power(2, 48));
}

/// There is one level to a sample: the contract of `level_for` leaves no
/// choice.
pub proof fn law_level_is_unique(sample: u64, m: int, a: nat, b: nat)
    requires
        is_level(sample, m, a),
        is_level(sample, m, b),
    ensures
        a == b,
{
    if m >= 2 {
        let s = sample + 1;
        if a < b {
            lemma_power_monotone(m, a + 1, b);
            assert(s * power(m, a + 1) <= s * power(m, b)) by (nonlinear_arith)
                requires
                    s >= 1,
                    power(m, a + 1) <= power(m, b),
            ;
        } else if b < a {
            lemma_power_monotone(m, b + 1, a);
            assert(s * power(m, b + 1) <= s * power(m, a)) by (nonlinear_arith)
                requires
                    s >= 1,
                    power(m, b + 1) <= power(m, a),
            ;
        }
    }
}

/// The top layer of a new node, from one sample of the generator.
pub fn level_for(sample: u64, m: usize) -> (level: usize)
    ensures
        is_level(sample, m as int, level as nat),
        level <= 64,
{
    if m < 2 {
        return 0;
    }
    let span: u128 = SAMPLE_SPAN;
    let base: u128 = m as u128;
    let mut p: u128 = sample as u128 + 1;
    let mut level: usize = 0;
    assert(p * base <= 0xFFFF_FFFF_FFFF_FFFF_0000_0000_0000_0000) by (nonlinear_arith)
        requires
            0 <= p <= 0x1_0000_0000_0000_0000,
            0 <= base <= 0xFFFF_FFFF_FFFF_FFFF,
    ;
    let mut next: u128 = p * base;
    while next <= span
        invariant
            m >= 2,
            base == m,
            span == SAMPLE_SPAN,
            1 <= p <= span,
            next == p * base,
            base <= 0xFFFF_FFFF_FFFF_FFFF,
            p == (sample + 1) * power(m as int, level as nat),
            level <= 64,
        decreases span - p,
    {
        proof {
            let s = sample + 1;
            let q = power(m as int, level as nat);
            assert(power(m as int, (level + 1) as nat) == m * q);
            assert(s * (m * q) == (s * q) * m) by (nonlinear_arith);
            assert(p * base >= 2 * p) by (nonlinear_arith)
                requires
                    base >= 2,
                    p >= 1,
            ;
            if level == 64 {
                lemma_power_grows(m as int, 65);
                lemma_two_to_65();
                let r = power(m as int, 65);
                assert(s * r >= r) by (nonlinear_arith)
                    requires
                        s >= 1,
                        r >= 1,
                ;
            }
            assert(next * base <= 0xFFFF_FFFF_FFFF_FFFF_0000_0000_0000_0000)
                by (nonlinear_arith)
                requires
                    0 <= next <= 0x1_0000_0000_0000_0000,
                    0 <= base <= 0xFFFF_FFFF_FFFF_FFFF,
            ;
        }
        p = next;
        level = level + 1;
        next = p * base;
    }
    proof {
        let s = sample + 1;
        let q = power(m as int, level as nat);
        assert(power(m as int, (level + 1) as nat) == m * q);
        assert(s * (m * q) == (s * q) * m) by (nonlinear_arith);
    }
    level
}

} // verus!
