//! Integer math functions: prime factorization and greatest common factor.

use vstd::arithmetic::div_mod::{
    lemma_div_is_strictly_smaller, lemma_fundamental_div_mod, lemma_mod_multiples_basic,
    lemma_mod_self_0, lemma_small_mod,
};
use vstd::prelude::*;

verus! {

/// Error returned by `factor` when the argument has no prime factorization
#[derive(Clone, Copy, Debug, PartialEq, Eq, Structural)]
pub enum FactorError {
    ArgumentIsZeroOrOne(u64),
}

/// Error returned by `greatest_common_factor` when an argument is zero
#[derive(Clone, Copy, Debug, PartialEq, Eq, Structural)]
pub enum GreatestCommonFactorError {
    ArgumentIsZero,
}

/// The product of all elements of a sequence; one for the empty sequence
pub open spec fn seq_product(s: Seq<u64>) -> int
    decreases s.len(),
{
    if s.len() == 0 {
        1
    } else {
        seq_product(s.drop_last()) * s.last()
    }
}

/// A prime: at least two, with no divisor strictly between one and itself
pub open spec fn is_prime(p: int) -> bool {
    p >= 2 && forall|k: int| 2 <= k < p ==> #[trigger] (p % k) != 0
}

/// d evenly divides a
pub open spec fn divides(d: int, a: int) -> bool {
    a % d == 0
}

// -----------------------------------------------------------------------------
/// Factors a number into its primes, in non-decreasing order
// -----------------------------------------------------------------------------
pub fn factor(n: u64) -> (r: Result<Vec<u64>, FactorError>)
    ensures
        match r {
            Ok(primes) => {
                &&& n >= 2
                &&& seq_product(primes@) == n
                &&& forall|i: int|
                    0 <= i < primes@.len() ==> is_prime(#[trigger] primes@[i] as int)
                &&& forall|i: int, j: int|
                    0 <= i <= j < primes@.len() ==> primes@[i] <= primes@[j]
            },
            Err(e) => n < 2 && e == FactorError::ArgumentIsZeroOrOne(n),
        },
{
    if n < 2 {
        return Err(FactorError::ArgumentIsZeroOrOne(n));
    }
    let mut prime_vec: Vec<u64> = Vec::new();
    let mut dividend: u64 = n;
    let mut divisor: u64 = 2;
    loop
        invariant_except_break
            2 <= divisor <= dividend,
            seq_product(prime_vec@) * dividend == n,
            forall|k: int| 2 <= k < divisor ==> #[trigger] (dividend as int % k) != 0,
            forall|i: int|
                0 <= i < prime_vec@.len() ==> is_prime(#[trigger] prime_vec@[i] as int),
            forall|i: int| 0 <= i < prime_vec@.len() ==> #[trigger] prime_vec@[i] <= divisor,
            forall|i: int, j: int|
                0 <= i <= j < prime_vec@.len() ==> prime_vec@[i] <= prime_vec@[j],
        ensures
            seq_product(prime_vec@) == n,
            forall|i: int|
                0 <= i < prime_vec@.len() ==> is_prime(#[trigger] prime_vec@[i] as int),
            forall|i: int, j: int|
                0 <= i <= j < prime_vec@.len() ==> prime_vec@[i] <= prime_vec@[j],
        decreases dividend, dividend - divisor,
    {
        if dividend % divisor == 0 {
            let ghost old_dividend = dividend as int;
            let ghost old_primes = prime_vec@;
            let ghost q = dividend as int / divisor as int;
            proof {
                lemma_fundamental_div_mod(dividend as int, divisor as int);
                lemma_div_is_strictly_smaller(dividend as int, divisor as int);
                assert(old_dividend == (divisor as int) * q);
                // The divisor is prime: a proper divisor of it would also
                // divide the dividend, which the invariant rules out.
                assert forall|k: int| 2 <= k < divisor implies #[trigger] (
                divisor as int % k) != 0 by {
                    if divisor as int % k == 0 {
                        lemma_fundamental_div_mod(divisor as int, k);
                        let j = divisor as int / k;
                        assert(divisor as int == k * j);
                        assert(old_dividend == (q * j) * k) by (nonlinear_arith)
                            requires
                                old_dividend == (divisor as int) * q,
                                divisor as int == k * j,
                        ;
                        lemma_mod_multiples_basic(q * j, k);
                        assert(old_dividend % k == 0);
                    }
                }
                assert(seq_product(old_primes.push(divisor)) == seq_product(old_primes)
                    * divisor) by {
                    assert(old_primes.push(divisor).drop_last() =~= old_primes);
                }
            }
            prime_vec.push(divisor);
            dividend = dividend / divisor;
            proof {
                assert(seq_product(prime_vec@) == seq_product(old_primes) * (divisor as int));
                assert(seq_product(prime_vec@) * (dividend as int) == n) by (nonlinear_arith)
                    requires
                        seq_product(prime_vec@) == seq_product(old_primes) * (divisor as int),
                        dividend as int == q,
                        old_dividend == (divisor as int) * q,
                        seq_product(old_primes) * old_dividend == n,
                ;
                assert(dividend as int >= 1) by (nonlinear_arith)
                    requires
                        old_dividend == (divisor as int) * q,
                        dividend as int == q,
                        old_dividend >= 2,
                        divisor as int >= 2,
                ;
            }
            if dividend == 1 {
                proof {
                    assert(seq_product(prime_vec@) * 1int == seq_product(prime_vec@));
                }
                break ;
            }
            proof {
                // No divisor below the current one divides the new dividend,
                // because it would have divided the old dividend as well.
                assert forall|k: int| 2 <= k < divisor implies #[trigger] (
                dividend as int % k) != 0 by {
                    if dividend as int % k == 0 {
                        lemma_fundamental_div_mod(dividend as int, k);
                        let m = dividend as int / k;
                        assert(dividend as int == k * m);
                        assert(old_dividend == ((divisor as int) * m) * k)
                            by (nonlinear_arith)
                            requires
                                old_dividend == (divisor as int) * (dividend as int),
                                dividend as int == k * m,
                        ;
                        lemma_mod_multiples_basic((divisor as int) * m, k);
                        assert(old_dividend % k == 0);
                    }
                }
                // The new dividend is at least the divisor: anything smaller
                // and at least two would divide itself.
                if dividend < divisor {
                    lemma_mod_self_0(dividend as int);
                    assert(dividend as int % (dividend as int) == 0);
                    assert(false);
                }
            }
        } else {
            proof {
                if divisor == dividend {
                    lemma_mod_self_0(divisor as int);
                    assert(false);
                }
            }
            divisor = divisor + 1;
        }
    }
    Ok(prime_vec)
}

// -----------------------------------------------------------------------------
/// Computes the greatest common factor of two positive integers
// -----------------------------------------------------------------------------
pub fn greatest_common_factor(n0: u64, n1: u64) -> (r: Result<
    u64,
    GreatestCommonFactorError,
>)
    ensures
        match r {
            Ok(g) => {
                &&& n0 >= 1 && n1 >= 1
                &&& g >= 1
                &&& divides(g as int, n0 as int)
                &&& divides(g as int, n1 as int)
                &&& forall|d: int|
                    1 <= d && #[trigger] divides(d, n0 as int) && divides(d, n1 as int)
                        ==> d <= g
            },
            Err(e) => (n0 == 0 || n1 == 0) && e == GreatestCommonFactorError::ArgumentIsZero,
        },
{
    if n0 == 0 || n1 == 0 {
        return Err(GreatestCommonFactorError::ArgumentIsZero);
    }
    let mut a: u64 = n0;
    let mut b: u64 = n1;
    while b != 0
        invariant
            a >= 1,
            forall|d: int|
                1 <= d ==> ((#[trigger] divides(d, n0 as int) && divides(d, n1 as int)) <==> (
                divides(d, a as int) && divides(d, b as int))),
        decreases b,
    {
        let next = a % b;
        proof {
            lemma_euclid_step(a as int, b as int);
        }
        a = b;
        b = next;
    }
    proof {
        lemma_mod_self_0(a as int);
        lemma_small_mod(0, a as nat);
        assert(divides(a as int, a as int) && divides(a as int, b as int));
        assert(divides(a as int, n0 as int) && divides(a as int, n1 as int));
        assert forall|d: int|
            1 <= d && #[trigger] divides(d, n0 as int) && divides(d, n1 as int) implies d
            <= a by {
            assert(divides(d, a as int) && divides(d, b as int));
            if d > a {
                lemma_small_mod(a as nat, d as nat);
                assert(a as int % d == a as int);
                assert(false);
            }
        }
    }
    Ok(a)
}

/// A common divisor of a and b is a common divisor of b and a % b, and back
proof fn lemma_euclid_step(a: int, b: int)
    requires
        a >= 0,
        b >= 1,
    ensures
        forall|d: int|
            1 <= d ==> ((#[trigger] divides(d, a) && divides(d, b)) <==> (divides(d, b)
                && divides(d, a % b))),
{
    lemma_fundamental_div_mod(a, b);
    let q = a / b;
    assert(a == b * q + a % b);
    assert forall|d: int| 1 <= d && divides(d, b) implies ((#[trigger] divides(d, a)) <==>
    divides(d, a % b)) by {
        lemma_fundamental_div_mod(b, d);
        let y = b / d;
        assert(b == d * y);
        if divides(d, a) {
            lemma_fundamental_div_mod(a, d);
            let x = a / d;
            assert(a == d * x);
            assert(a % b == (x - q * y) * d) by (nonlinear_arith)
                requires
                    a == d * x,
                    b == d * y,
                    a == b * q + a % b,
            ;
            lemma_mod_multiples_basic(x - q * y, d);
            assert((a % b) % d == 0);
        } else {
            if divides(d, a % b) {
                lemma_fundamental_div_mod(a % b, d);
                let z = (a % b) / d;
                assert(a % b == d * z);
                assert(a == (q * y + z) * d) by (nonlinear_arith)
                    requires
                        b == d * y,
                        a % b == d * z,
                        a == b * q + a % b,
                ;
                lemma_mod_multiples_basic(q * y + z, d);
                assert(a % d == 0);
            }
        }
    }
}

} // verus!
