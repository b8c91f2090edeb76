//! Pseudo-random "secret number" sequence: each step mixes a value into the
//! current secret with XOR and prunes it modulo 2^24.

use vstd::prelude::*;

verus! {

/// One mixing step: XOR the modifier into the secret.
pub open spec fn spec_mix(sn: i64, modifier: i64) -> i64 {
    modifier ^ sn
}

/// One pruning step: reduce the secret modulo 2^24 (the secret is never
/// negative, so Euclidean and truncating remainder agree).
pub open spec fn spec_prune(sn: i64) -> i64 {
    sn % 16777216i64
}

/// The successor of a secret number: three mix/prune rounds, feeding in
/// the secret times 64, divided by 32, and times 2048.
pub open spec fn spec_next_secret(sn: i64) -> i64 {
    let s1 = spec_prune(spec_mix(sn, (sn * 64) as i64));
    let s2 = spec_prune(spec_mix(s1, ((s1 / 32) as i64)));
    spec_prune(spec_mix(s2, (s2 * 2048) as i64))
}

/// The n-th successor of a secret number.
pub open spec fn spec_nth_secret(sn: i64, n: nat) -> i64
    decreases n,
{
    if n == 0 {
        sn
    } else {
        spec_nth_secret(spec_next_secret(sn), (n - 1) as nat)
    }
}

pub fn mix(sn: i64, modifier: i64) -> (r: i64)
    ensures
        r == spec_mix(sn, modifier),
{
    modifier ^ sn
}

pub fn prune(sn: i64) -> (r: i64)
    requires
        sn >= 0,
    ensures
        r == spec_prune(sn),
        0 <= r < 16777216,
{
    sn % 16777216
}

/// XOR of two non-negative values below a power-of-two bound stays
/// non-negative and below the larger bound.
proof fn lemma_xor_bounds(a: i64, b: i64)
    requires
        0 <= a < 0x2000000000000000,
        0 <= b < 0x2000000000000000,
    ensures
        0 <= (a ^ b),
        a < 16777216 && b < 16777216 ==> (a ^ b) < 16777216,
{
    assert(0 <= (a ^ b) && (a < 16777216 && b < 16777216 ==> (a ^ b) < 16777216))
        by (bit_vector)
        requires
            0 <= a < 0x2000000000000000,
            0 <= b < 0x2000000000000000,
    ;
}

pub fn get_next_secret_number(sn: i64) -> (r: i64)
    requires
        0 <= sn < 0x40000000000000,
    ensures
        r == spec_next_secret(sn),
        0 <= r < 16777216,
{
    proof {
        lemma_xor_bounds((sn * 64) as i64, sn);
    }
    let mut result = prune(mix(sn, sn * 64));
    proof {
        lemma_xor_bounds((result / 32) as i64, result);
    }
    result = prune(mix(result, result / 32));
    proof {
        lemma_xor_bounds((result * 2048) as i64, result);
    }
    result = prune(mix(result, result * 2048));
    result
}

pub fn generate_nth_secret_number(input: i64, n: usize) -> (r: i64)
    requires
        0 <= input < 0x40000000000000,
    ensures
        r == spec_nth_secret(input, n as nat),
{
    let mut current = input;
    let mut i: usize = 0;
    while i < n
        invariant
            0 <= i <= n,
            0 <= current < 0x40000000000000,
            spec_nth_secret(current, (n - i) as nat) == spec_nth_secret(input, n as nat),
        decreases n - i,
    {
        proof {
            assert(spec_nth_secret(current, (n - i) as nat)
                == spec_nth_secret(spec_next_secret(current), (n - i - 1) as nat));
        }
        current = get_next_secret_number(current);
        i = i + 1;
    }
    current
}

} // verus!
