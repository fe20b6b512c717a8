use vstd::prelude::*;

verus! {

/// Number of rounds of the synthetic per-task workload.
pub const ROUNDS: u64 = 1000;

/// 0 + 1 + ... + (k - 1).
pub open spec fn triangle(k: int) -> int {
    k * (k - 1) / 2
}

/// The value of the synthetic workload for input `n`: the sum of `n * i` for
/// `i` in `0..ROUNDS`, taken modulo 2^64.
pub open spec fn workload_value(n: int) -> int {
    (n * triangle(ROUNDS as int)) % 0x1_0000_0000_0000_0000
}

proof fn lemma_step(n: int, i: int, acc: int)
    requires
        0 <= n,
        0 <= i,
        acc == (n * triangle(i)) % 0x1_0000_0000_0000_0000,
    ensures
        (acc + (n * i) % 0x1_0000_0000_0000_0000) % 0x1_0000_0000_0000_0000
            == (n * triangle(i + 1)) % 0x1_0000_0000_0000_0000,
{
    let m: int = 0x1_0000_0000_0000_0000;
    assert(triangle(i + 1) == triangle(i) + i) by (nonlinear_arith)
        requires triangle(i + 1) == (i + 1) * i / 2, triangle(i) == i * (i - 1) / 2, i >= 0,
    {
    }
    assert(n * triangle(i + 1) == n * triangle(i) + n * i) by (nonlinear_arith)
        requires triangle(i + 1) == triangle(i) + i,
    {
    }
    vstd::arithmetic::div_mod::lemma_add_mod_noop(n * triangle(i), n * i, m);
    vstd::arithmetic::div_mod::lemma_mod_twice(n * triangle(i), m);
}

/// A fixed arithmetic workload: accumulates `n * i` for `i` in `0..ROUNDS`
/// with wrapping 64-bit arithmetic.
pub fn heavy_computation(n: usize) -> (r: u64)
    ensures
        r as int == workload_value(n as int),
{
    let mut result: u64 = 0;
    let mut i: u64 = 0;
    while i < ROUNDS
        invariant
            i <= ROUNDS,
            result as int == (n as int * triangle(i as int)) % 0x1_0000_0000_0000_0000,
        decreases ROUNDS - i,
    {
        let term = (n as u64).wrapping_mul(i);
        proof {
            lemma_step(n as int, i as int, result as int);
        }
        result = result.wrapping_add(term);
        i = i + 1;
    }
    result
}

} // verus!
