use vstd::prelude::*;
use vstd::arithmetic::div_mod::{
    lemma_fundamental_div_mod,
    lemma_mod_multiples_basic,
    lemma_fundamental_div_mod_converse_mod,
};

verus! {

/// `n` is a prime: at least 2 and with no divisor strictly between 1 and `n`.
pub open spec fn is_prime(n: int) -> bool {
    n >= 2 && forall|d: int| 2 <= d < n ==> #[trigger] (n % d) != 0
}

/// `x` is at least 2 and no `d` in `2..i` with `d < x` divides it: what the
/// sieve knows of `x` once every `d` below `i` has crossed out its multiples.
pub open spec fn survives(x: int, i: int) -> bool {
    x >= 2 && forall|d: int| 2 <= d < i && d < x ==> #[trigger] (x % d) != 0
}

/// A proper divisor `d` of `x` has the proper cofactor `x / d`.
proof fn lemma_cofactor(x: int, d: int)
    requires
        2 <= d < x,
        x % d == 0,
    ensures
        2 <= x / d < x,
        x % (x / d) == 0,
        (x / d) * d == x,
{
    lemma_fundamental_div_mod(x, d);
    let k = x / d;
    assert(k * d == x && 2 <= k < x) by (nonlinear_arith)
        requires
            x == d * k + 0,
            2 <= d < x,
    ;
    lemma_mod_multiples_basic(d, k);
    assert(d * k == x) by (nonlinear_arith)
        requires
            k * d == x,
    ;
}

/// Divisibility is transitive.
proof fn lemma_divides_trans(x: int, i: int, d: int)
    requires
        d > 0,
        i > 0,
        i % d == 0,
        x % i == 0,
    ensures
        x % d == 0,
{
    lemma_fundamental_div_mod(x, i);
    lemma_fundamental_div_mod(i, d);
    let a = x / i;
    let b = i / d;
    assert(x == (b * a) * d) by (nonlinear_arith)
        requires
            x == i * a + 0,
            i == d * b + 0,
    ;
    lemma_mod_multiples_basic(b * a, d);
}

/// Between two consecutive multiples of `i` there is no multiple of `i`.
proof fn lemma_between_multiples(j: int, x: int, i: int)
    requires
        i > 0,
        j % i == 0,
        j < x < j + i,
    ensures
        x % i != 0,
{
    lemma_fundamental_div_mod(j, i);
    let q = j / i;
    assert(x == q * i + (x - j)) by (nonlinear_arith)
        requires
            j == i * q + 0,
    ;
    lemma_fundamental_div_mod_converse_mod(x, i, q, x - j);
}

/// For `i > 0`: `i <= limit / i` exactly when `i * i <= limit`.
proof fn lemma_square_bound(i: int, limit: int)
    requires
        i > 0,
        limit >= 0,
    ensures
        i <= limit / i <==> i * i <= limit,
{
    lemma_fundamental_div_mod(limit, i);
    let q = limit / i;
    let r = limit % i;
    assert(0 <= r < i);
    assert(i <= q <==> i * i <= limit) by (nonlinear_arith)
        requires
            limit == i * q + r,
            0 <= r < i,
            i > 0,
    ;
}

/// Once `i * i` passes `x`, surviving every `d` below `i` makes `x` prime.
proof fn lemma_survivor_is_prime(x: int, i: int)
    requires
        survives(x, i),
        x < i * i,
        i >= 2,
    ensures
        is_prime(x),
{
    assert forall|d: int| 2 <= d < x implies #[trigger] (x % d) != 0 by {
        if x % d == 0 && d >= i {
            lemma_cofactor(x, d);
            let k = x / d;
            assert(k < i) by (nonlinear_arith)
                requires
                    k * d == x,
                    x < i * i,
                    d >= i,
                    i >= 2,
                    k >= 2,
            ;
            assert(x % k != 0);
        }
    }
}

/// The sieve's state after `i` has crossed out its multiples from `i * i` on.
proof fn lemma_sieve_step(x: int, i: int, prime_i: bool)
    requires
        i >= 2,
        prime_i == survives(i, i),
    ensures
        prime_i ==> survives(x, i + 1) == (survives(x, i) && !(x % i == 0 && i * i <= x)),
        !prime_i ==> survives(x, i + 1) == survives(x, i),
{
    if x % i == 0 && i < x && survives(x, i) {
        if prime_i {
            if x < i * i {
                lemma_cofactor(x, i);
                let k = x / i;
                assert(k < i) by (nonlinear_arith)
                    requires
                        k * i == x,
                        x < i * i,
                        i >= 2,
                ;
                assert(x % k != 0);
            }
        } else {
            let d = choose|d: int| 2 <= d < i && d < i && #[trigger] (i % d) == 0;
            lemma_divides_trans(x, i, d);
            assert(x % d != 0);
        }
    }
    if prime_i && x % i == 0 && i * i <= x {
        assert(i < x) by (nonlinear_arith)
            requires
                i * i <= x,
                i >= 2,
        ;
    }
}

/// All primes up to `limit`, in increasing order.
pub fn sieve_of_eratosthenes(limit: usize) -> (primes: Vec<usize>)
    requires
        limit < usize::MAX,
    ensures
        forall|k: int|
            0 <= k < primes@.len() ==> is_prime(#[trigger] primes@[k] as int) && primes@[k]
                <= limit,
        forall|a: int, b: int| 0 <= a < b < primes@.len() ==> primes@[a] < primes@[b],
        forall|n: int| 0 <= n <= limit && is_prime(n) ==> primes@.contains(n as usize),
{
    let mut flags: Vec<bool> = Vec::new();
    let mut x: usize = 0;
    while x <= limit
        invariant
            x <= limit + 1,
            limit < usize::MAX,
            flags@.len() == x,
            forall|y: int| 0 <= y < x ==> #[trigger] flags@[y] == survives(y, 2),
        decreases limit + 1 - x,
    {
        flags.push(x >= 2);
        x = x + 1;
    }
    let mut i: usize = 2;
    while i <= limit / i
        invariant
            2 <= i,
            limit < usize::MAX,
            flags@.len() == limit + 1,
            forall|y: int| 0 <= y <= limit ==> #[trigger] flags@[y] == survives(y, i as int),
        decreases limit + 1 - i,
    {
        proof {
            lemma_square_bound(i as int, limit as int);
        }
        let prime_i = flags[i];
        if prime_i {
            let mut j: usize = i * i;
            proof {
                lemma_mod_multiples_basic(i as int, i as int);
            }
            while j <= limit
                invariant
                    2 <= i,
                    i * i <= limit,
                    limit < usize::MAX,
                    i * i <= j <= limit + 1,
                    j <= limit ==> j % i == 0,
                    flags@.len() == limit + 1,
                    forall|y: int|
                        0 <= y <= limit ==> #[trigger] flags@[y] == (survives(y, i as int) && !(y
                            % (i as int) == 0 && i * i <= y && y < j)),
                decreases limit + 1 - j,
            {
                flags.set(j, false);
                let next = if limit - j < i {
                    limit + 1
                } else {
                    j + i
                };
                proof {
                    assert forall|y: int| 0 <= y <= limit implies #[trigger] flags@[y] == (survives(
                        y,
                        i as int,
                    ) && !(y % (i as int) == 0 && i * i <= y && y < next)) by {
                        if j < y < next {
                            lemma_between_multiples(j as int, y, i as int);
                        }
                    }
                    if next <= limit {
                        lemma_mod_multiples_basic(1, i as int);
                        lemma_fundamental_div_mod(j as int, i as int);
                        let q = j as int / i as int + 1;
                        assert(next as int == q * i + 0) by (nonlinear_arith)
                            requires
                                j as int == i * (j as int / i as int) + 0,
                                next == j + i,
                                q == j as int / i as int + 1,
                        ;
                        lemma_fundamental_div_mod_converse_mod(next as int, i as int, q, 0);
                    }
                }
                j = next;
            }
        }
        proof {
            assert forall|y: int| 0 <= y <= limit implies #[trigger] flags@[y] == survives(
                y,
                i as int + 1,
            ) by {
                lemma_sieve_step(y, i as int, prime_i);
            }
        }
        i = i + 1;
    }
    proof {
        lemma_square_bound(i as int, limit as int);
        assert forall|y: int| 0 <= y <= limit implies #[trigger] flags@[y] == is_prime(y) by {
            if survives(y, i as int) {
                lemma_survivor_is_prime(y, i as int);
            }
        }
    }
    let mut primes: Vec<usize> = Vec::new();
    let mut x: usize = 0;
    while x <= limit
        invariant
            x <= limit + 1,
            limit < usize::MAX,
            flags@.len() == limit + 1,
            forall|y: int| 0 <= y <= limit ==> #[trigger] flags@[y] == is_prime(y),
            forall|k: int|
                0 <= k < primes@.len() ==> is_prime(#[trigger] primes@[k] as int) && primes@[k]
                    < x,
            forall|a: int, b: int| 0 <= a < b < primes@.len() ==> primes@[a] < primes@[b],
            forall|n: int| 0 <= n < x && is_prime(n) ==> primes@.contains(n as usize),
        decreases limit + 1 - x,
    {
        let ghost before = primes@;
        if flags[x] {
            primes.push(x);
            proof {
                assert forall|n: int| 0 <= n < x + 1 && is_prime(n) implies primes@.contains(
                    n as usize,
                ) by {
                    if n == x {
                        assert(primes@[primes@.len() - 1] == x);
                    } else {
                        let k = choose|k: int| 0 <= k < before.len() && before[k] == n as usize;
                        assert(primes@[k] == n as usize);
                    }
                }
            }
        }
        x = x + 1;
    }
    primes
}

} // verus!
