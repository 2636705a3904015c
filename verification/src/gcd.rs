//! Greatest common divisor of positive integers.

use vstd::arithmetic::div_mod::{lemma_fundamental_div_mod, lemma_mod_multiples_vanish};
use vstd::arithmetic::mul::lemma_mul_is_associative;
use vstd::prelude::*;

verus! {

/// `d` divides `n`.
pub open spec fn divides(d: nat, n: nat) -> bool {
    d > 0 && n % d == 0
}

/// `d` divides both `n` and `m`.
pub open spec fn common_divisor(d: nat, n: nat, m: nat) -> bool {
    divides(d, n) && divides(d, m)
}

/// `g` is the greatest common divisor of `n` and `m`: the common divisors
/// of `n` and `m` are the divisors of `g`.
pub open spec fn is_gcd(g: nat, n: nat, m: nat) -> bool {
    forall|d: nat| #[trigger] common_divisor(d, n, m) <==> divides(d, g)
}

/// A divisor of a positive number is not larger than the number.
pub proof fn lemma_divisor_is_at_most(d: nat, n: nat)
    requires
        n > 0,
        divides(d, n),
    ensures
        d <= n,
{
    let k = (n as int) / (d as int);
    lemma_fundamental_div_mod(n as int, d as int);
    assert(d <= n) by (nonlinear_arith)
        requires
            d > 0,
            n > 0,
            n == d * k,
    {
        assert(k >= 1);
    }
}

/// The greatest common divisor of two positive numbers is a common divisor
/// of them, and no common divisor is larger.
pub proof fn lemma_gcd_is_greatest(g: nat, n: nat, m: nat)
    requires
        g > 0,
        is_gcd(g, n, m),
    ensures
        common_divisor(g, n, m),
        forall|d: nat| #[trigger] common_divisor(d, n, m) ==> d <= g,
{
    assert(divides(g, g)) by {
        lemma_mod_multiples_vanish(1, 0, g as int);
    }
    assert forall|d: nat| #[trigger] common_divisor(d, n, m) implies d <= g by {
        lemma_divisor_is_at_most(d, g);
    }
}

/// A divisor of `n` and of `m` also divides `m % n`, and a divisor of `n` and
/// of `m % n` also divides `m`.
proof fn lemma_remainder_keeps_divisors(d: nat, n: nat, m: nat)
    requires
        n > 0,
        divides(d, n),
    ensures
        divides(d, m) <==> divides(d, m % n),
{
    let di = d as int;
    let q = (m as int) / (n as int);
    let k = (n as int) / di;
    let r = (m as int) % (n as int);
    lemma_fundamental_div_mod(m as int, n as int);
    lemma_fundamental_div_mod(n as int, di);
    assert(n == di * k);
    lemma_mul_is_associative(di, k, q);
    assert(m == di * (k * q) + r);
    lemma_mod_multiples_vanish(k * q, r, di);
    assert((m as int) % di == r % di);
}

/// The greatest common divisor of `n` and `m`.
pub fn gcd(n: u64, m: u64) -> (g: u64)
    requires
        n != 0,
        m != 0,
    ensures
        g > 0,
        is_gcd(g as nat, n as nat, m as nat),
{
    let mut a: u64 = n;
    let mut b: u64 = m;
    while b != 0
        invariant
            a != 0,
            forall|d: nat|
                common_divisor(d, a as nat, b as nat) <==> #[trigger] common_divisor(
                    d,
                    n as nat,
                    m as nat,
                ),
        decreases b,
    {
        let ghost (a0, b0) = (a as nat, b as nat);
        if b < a {
            let t: u64 = b;
            b = a;
            a = t;
        }
        proof {
            assert forall|d: nat|
                common_divisor(d, a as nat, (b % a) as nat) <==> #[trigger] common_divisor(
                    d,
                    n as nat,
                    m as nat,
                ) by {
                assert(common_divisor(d, a0, b0) <==> common_divisor(d, n as nat, m as nat));
                if divides(d, a as nat) {
                    lemma_remainder_keeps_divisors(d, a as nat, b as nat);
                }
            }
        }
        b = b % a;
    }
    proof {
        assert forall|d: nat| #[trigger]
            common_divisor(d, n as nat, m as nat) <==> divides(d, a as nat) by {
            assert(common_divisor(d, a as nat, 0) <==> common_divisor(d, n as nat, m as nat));
            if d > 0 {
                assert(0nat % d == 0);
            }
        }
    }
    a
}

/// `g` is the greatest common divisor of all of `numbers`: the divisors of
/// every one of them are the divisors of `g`.
pub open spec fn is_gcd_of_all(g: nat, numbers: Seq<u64>) -> bool {
    forall|d: nat|
        (forall|i: int| 0 <= i < numbers.len() ==> divides(d, #[trigger] numbers[i] as nat))
            <==> #[trigger] divides(d, g)
}

/// The greatest common divisor of all of `numbers`.
pub fn gcd_of_all(numbers: &[u64]) -> (g: u64)
    requires
        numbers@.len() > 0,
        forall|i: int| 0 <= i < numbers@.len() ==> numbers@[i] != 0,
    ensures
        g > 0,
        is_gcd_of_all(g as nat, numbers@),
{
    let mut g: u64 = numbers[0];
    let mut k: usize = 1;
    proof {
        assert(is_gcd_of_all(g as nat, numbers@.take(1))) by {
            assert(numbers@.take(1)[0] == g);
        }
    }
    while k < numbers.len()
        invariant
            1 <= k <= numbers@.len(),
            g > 0,
            forall|i: int| 0 <= i < numbers@.len() ==> numbers@[i] != 0,
            is_gcd_of_all(g as nat, numbers@.take(k as int)),
        decreases numbers@.len() - k,
    {
        let next: u64 = gcd(g, numbers[k]);
        proof {
            let before = numbers@.take(k as int);
            let now = numbers@.take(k + 1);
            assert forall|d: nat|
                (forall|i: int| 0 <= i < now.len() ==> divides(d, #[trigger] now[i] as nat))
                    <==> #[trigger] divides(d, next as nat) by {
                assert(common_divisor(d, g as nat, numbers@[k as int] as nat) <==> divides(
                    d,
                    next as nat,
                ));
                assert((forall|i: int|
                    0 <= i < before.len() ==> divides(d, #[trigger] before[i] as nat)) <==> divides(
                    d,
                    g as nat,
                ));
                if forall|i: int| 0 <= i < now.len() ==> divides(d, #[trigger] now[i] as nat) {
                    assert forall|i: int| 0 <= i < before.len() implies divides(
                        d,
                        #[trigger] before[i] as nat,
                    ) by {
                        assert(before[i] == now[i]);
                    }
                    assert(now[k as int] == numbers@[k as int]);
                }
                if divides(d, next as nat) {
                    assert forall|i: int| 0 <= i < now.len() implies divides(
                        d,
                        #[trigger] now[i] as nat,
                    ) by {
                        if i < k {
                            assert(now[i] == before[i]);
                        }
                    }
                }
            }
        }
        g = next;
        k += 1;
    }
    proof {
        assert(numbers@.take(k as int) =~= numbers@);
    }
    g
}

} // verus!
