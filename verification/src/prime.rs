//! Prime time: answers whether a number is prime.
//!
//! Requests arrive as JSON with a method and a number. The JSON itself, and
//! the number (a JSON number, possibly fractional), are read by the network
//! driver; the decision is made here.

use vstd::prelude::*;
use vstd::string::*;

verus! {

/// `n` is a prime number.
pub open spec fn is_prime_number(n: nat) -> bool {
    n > 1 && forall|d: nat| 1 < d < n ==> #[trigger] (n % d) != 0
}

proof fn lemma_even_divisor(n: nat, d: nat)
    requires
        d > 0,
        d % 2 == 0,
        n % d == 0,
    ensures
        n % 2 == 0,
{
    vstd::arithmetic::div_mod::lemma_fundamental_div_mod(n as int, d as int);
    let m = d / 2;
    let q = n / d;
    assert(n == 2 * (m * q)) by (nonlinear_arith)
        requires
            n == d * q + 0,
            d == 2 * m,
    ;
    vstd::arithmetic::div_mod::lemma_mod_multiples_basic((m * q) as int, 2);
}

proof fn lemma_small_divisor(n: nat, i: nat, d: nat)
    requires
        i * i > n,
        1 < d < n,
        forall|e: nat| 1 < e < i ==> #[trigger] (n % e) != 0,
    ensures
        n % d != 0,
{
    if n % d == 0 {
        vstd::arithmetic::div_mod::lemma_fundamental_div_mod(n as int, d as int);
        let e = n / d;
        assert(n == d * e);
        if d < i {
            assert(n % d != 0);
        } else {
            assert(e < i && e > 1) by (nonlinear_arith)
                requires
                    n == d * e,
                    d >= i,
                    i * i > n,
                    d < n,
                    d > 1,
            ;
            vstd::arithmetic::div_mod::lemma_mod_multiples_basic(d as int, e as int);
            assert((d * e) % e == 0) by (nonlinear_arith)
                requires
                    (d as int * e as int) % (e as int) == 0,
            ;
            assert(n % e != 0);
        }
    }
}

/// Whether `n` is prime: trial division by 2 and by the odd numbers up to
/// its square root.
pub fn is_prime(n: u64) -> (r: bool)
    ensures
        r == is_prime_number(n as nat),
{
    if n <= 1 {
        return false;
    }
    if n == 2 {
        return true;
    }
    if n % 2 == 0 {
        assert((n as nat) % 2 == 0);
        return false;
    }
    let mut i: u64 = 3;
    while i <= n / i
        invariant
            3 <= i,
            i % 2 == 1,
            n % 2 == 1,
            n > 2,
            forall|d: nat| 1 < d < i ==> #[trigger] ((n as nat) % d) != 0,
        decreases n - i,
    {
        if n % i == 0 {
            assert(i < n) by (nonlinear_arith)
                requires
                    i <= n / i,
                    i >= 3,
            {
                vstd::arithmetic::div_mod::lemma_fundamental_div_mod(n as int, i as int);
            }
            assert((n as nat) % (i as nat) == 0);
            return false;
        }
        assert(i + 2 < n) by (nonlinear_arith)
            requires
                i <= n / i,
                i >= 3,
                n > 2,
        {
            vstd::arithmetic::div_mod::lemma_fundamental_div_mod(n as int, i as int);
        }
        assert forall|d: nat| 1 < d < i + 2 implies #[trigger] ((n as nat) % d) != 0 by {
            if d == i + 1 {
                if (n as nat) % d == 0 {
                    lemma_even_divisor(n as nat, d);
                }
            }
        }
        i = i + 2;
    }
    proof {
        assert((i as nat) * (i as nat) > n as nat) by (nonlinear_arith)
            requires
                i > n / i,
                i >= 3,
        {
            vstd::arithmetic::div_mod::lemma_fundamental_div_mod(n as int, i as int);
        }
        assert forall|d: nat| 1 < d < n implies #[trigger] ((n as nat) % d) != 0 by {
            lemma_small_divisor(n as nat, i as nat, d);
        }
    }
    true
}

/// The answer to a request that could not be understood.
#[derive(Debug, Clone, Copy, PartialEq, Eq, Structural)]
pub enum Answer {
    Malformed,
}

/// The decision on a well-formed JSON request: its method must be
/// `isPrime`; a fractional number is never prime, an integral one (as `u64`)
/// is tested. `integral` is `None` for a number with a fractional part.
pub fn prime_answer(method: &str, integral: Option<u64>) -> (r: Result<bool, Answer>)
    ensures
        method@ != "isPrime"@ ==> r == Err::<bool, Answer>(Answer::Malformed),
        method@ == "isPrime"@ ==> r == Ok::<bool, Answer>(match integral {
            Some(n) => is_prime_number(n as nat),
            None => false,
        }),
{
    let expected = String::from_str("isPrime");
    if method.to_owned() != expected {
        return Err(Answer::Malformed);
    }
    match integral {
        Some(n) => Ok(is_prime(n)),
        None => Ok(false),
    }
}

} // verus!
