//! Which remainders a number of decimal digits can leave.

use crate::number;
use vstd::prelude::*;

verus! {

/// The value of decimal digits, the lowest first.
pub open spec fn value(a: Seq<u8>) -> nat
    decreases a.len(),
{
    if a.len() == 0 {
        0
    } else {
        a[0] as nat + 10 * value(a.skip(1))
    }
}

/// `n` decimal digits.
pub open spec fn are_digits(a: Seq<u8>, n: nat) -> bool {
    a.len() == n && forall|i: int| 0 <= i < a.len() ==> #[trigger] a[i] <= 9
}

/// There are `n` decimal digits whose value leaves the same remainder as `remainder`.
pub open spec fn reachable(divisor: nat, remainder: nat, n: nat) -> bool {
    exists|a: Seq<u8>| #[trigger] are_digits(a, n) && value(a) % divisor == remainder % divisor
}

proof fn lemma_value_bound(a: Seq<u8>, n: nat)
    requires
        are_digits(a, n),
    ensures
        value(a) < number::pow10(n),
    decreases n,
{
    if n > 0 {
        let rest = a.skip(1);
        assert forall|i: int| 0 <= i < rest.len() implies #[trigger] rest[i] <= 9 by {
            assert(rest[i] == a[i + 1]);
        }
        lemma_value_bound(rest, (n - 1) as nat);
        assert(a[0] <= 9);
    }
}

proof fn lemma_value_exists(m: nat, n: nat) -> (a: Seq<u8>)
    requires
        m < number::pow10(n),
    ensures
        are_digits(a, n),
        value(a) == m,
    decreases n,
{
    if n == 0 {
        Seq::empty()
    } else {
        let rest = lemma_value_exists(m / 10, (n - 1) as nat);
        let a = seq![(m % 10) as u8] + rest;
        assert(a.skip(1) =~= rest);
        assert forall|i: int| 0 <= i < a.len() implies #[trigger] a[i] <= 9 by {
            if i > 0 {
                assert(a[i] == rest[i - 1]);
            }
        }
        a
    }
}

/// A remainder is left by some number of `n` digits if and only if it has no more digits itself.
pub proof fn reachable_iff_small(divisor: nat, remainder: nat, n: nat)
    requires
        divisor > 0,
    ensures
        reachable(divisor, remainder, n) <==> remainder % divisor < number::pow10(n),
{
    let r = remainder % divisor;
    if reachable(divisor, remainder, n) {
        let a = choose|a: Seq<u8>| #[trigger]
            are_digits(a, n) && value(a) % divisor == remainder % divisor;
        lemma_value_bound(a, n);
        vstd::arithmetic::div_mod::lemma_mod_decreases(value(a), divisor);
    }
    if r < number::pow10(n) {
        let a = lemma_value_exists(r, n);
        vstd::arithmetic::div_mod::lemma_small_mod(r, divisor);
    }
}

proof fn lemma_pow10_monotonic(a: nat, b: nat)
    requires
        a <= b,
    ensures
        number::pow10(a) <= number::pow10(b),
    decreases b,
{
    if a < b {
        lemma_pow10_monotonic(a, (b - 1) as nat);
    }
}

proof fn lemma_pow10_values()
    ensures
        number::pow10(0) == 1,
        number::pow10(9) == 1_000_000_000,
        number::pow10(10) == 10_000_000_000,
{
    reveal_with_fuel(number::pow10, 11);
}

/// Ten to the power `n`.
fn pow10(n: u32) -> (r: u32)
    requires
        n <= 9,
    ensures
        r == number::pow10(n as nat),
{
    let mut r: u32 = 1;
    let mut i: u32 = 0;
    proof {
        lemma_pow10_values();
    }
    while i < n
        invariant
            i <= n <= 9,
            r == number::pow10(i as nat),
            number::pow10(9) == 1_000_000_000,
        decreases n - i,
    {
        proof {
            lemma_pow10_monotonic((i + 1) as nat, 9);
        }
        r = r * 10;
        i = i + 1;
    }
    r
}

/// The answer where the sizes alone give it: a remainder of zero, one of too many digits, and one of
/// a divisor of fewer digits than there are.
fn check_remainder_simple(divisor: u32, remainder: u32, n: u32) -> (r: Option<bool>)
    requires
        remainder < divisor,
    ensures
        r == (if remainder == 0 {
            Some(true)
        } else if number::pow10(n as nat) <= remainder {
            Some(false)
        } else if n > 0 && divisor <= number::pow10((n - 1) as nat) {
            Some(true)
        } else {
            None
        }),
        r matches Some(b) ==> b == reachable(divisor as nat, remainder as nat, n as nat),
{
    proof {
        reachable_iff_small(divisor as nat, remainder as nat, n as nat);
        vstd::arithmetic::div_mod::lemma_small_mod(remainder as nat, divisor as nat);
        lemma_pow10_values();
        lemma_pow10_monotonic(0, n as nat);
        if n >= 10 {
            lemma_pow10_monotonic(10, n as nat);
        }
        if n >= 11 {
            lemma_pow10_monotonic(10, (n - 1) as nat);
        }
    }
    if remainder == 0 {
        return Some(true);
    }
    if n >= 11 {
        // every divisor has fewer digits
        return Some(true);
    }
    if n <= 9 && pow10(n) <= remainder {
        return Some(false);
    }
    if n > 0 && divisor <= pow10(n - 1) {
        return Some(true);
    }
    None
}

/// Checks if there exists a sequence of n digits A_0, ..., A_{n-1} such that
/// A_0 * 10^0 + ... + A_{n-1} * 10^{n-1} = remainder (mod divisor)
pub fn check_remainder(divisor: u32, remainder: u32, n: u32) -> (r: bool)
    requires
        divisor > 0,
    ensures
        r == reachable(divisor as nat, remainder as nat, n as nat),
{
    let left: u32 = remainder % divisor;
    proof {
        vstd::arithmetic::div_mod::lemma_small_mod(left as nat, divisor as nat);
        reachable_iff_small(divisor as nat, remainder as nat, n as nat);
        reachable_iff_small(divisor as nat, left as nat, n as nat);
    }
    match check_remainder_simple(divisor, left, n) {
        Some(result) => result,
        // what is left has no more than n digits: they are a solution
        None => true,
    }
}

/// Ten or more digits leave every remainder.
pub proof fn ten_digits_reach_all(divisor: u32, remainder: u32, n: nat)
    requires
        divisor > 0,
        n >= 10,
    ensures
        reachable(divisor as nat, remainder as nat, n),
{
    reachable_iff_small(divisor as nat, remainder as nat, n);
    lemma_pow10_values();
    lemma_pow10_monotonic(10, n);
    vstd::arithmetic::div_mod::lemma_mod_bound(remainder as int, divisor as int);
}

} // verus!
