//! Primality by trial division up to the square root.

use vstd::prelude::*;
use vstd::arithmetic::div_mod::lemma_fundamental_div_mod;
use vstd::arithmetic::div_mod::lemma_mod_multiples_basic;

verus! {

/// `x` is prime: at least two, with no divisor strictly between one and
/// itself.
pub open spec fn is_prime_spec(x: nat) -> bool {
    x >= 2 && forall|d: nat| 2 <= d < x ==> #[trigger] (x % d) != 0
}

/// Decide primality of `x` by trial division.
#[verifier::loop_isolation(false)]
pub fn is_prime(x: u64) -> (r: bool)
    ensures
        r == is_prime_spec(x as nat),
{
    if x == 0 || x == 1 {
        return false;
    }
    let mut i: u64 = 2;
    while i <= x / i
        invariant
            2 <= i,
            i <= x,
            forall|d: nat| 2 <= d < i ==> #[trigger] ((x as nat) % d) != 0,
        decreases x - i,
    {
        if x % i == 0 {
            proof {
                lemma_fundamental_div_mod(x as int, i as int);
                vstd::arithmetic::div_mod::lemma_mod_bound(x as int, i as int);
                assert(!is_prime_spec(x as nat)) by {
                    assert(2 <= i < x || i == x);
                    if i == x {
                        assert(false) by (nonlinear_arith)
                            requires
                                i <= x / i,
                                i >= 2,
                                x >= 2,
                                i == x,
                                x == i * (x / i) + x % i,
                                0 <= x % i < i,
                        ;
                    }
                    assert((x as nat) % (i as nat) == 0);
                }
            }
            return false;
        }
        proof {
            lemma_fundamental_div_mod(x as int, i as int);
            vstd::arithmetic::div_mod::lemma_mod_bound(x as int, i as int);
            assert(i + 1 <= x) by (nonlinear_arith)
                requires
                    i <= x / i,
                    i >= 2,
                    x >= 2,
                    x == i * (x / i) + x % i,
                    0 <= x % i < i,
            ;
        }
        i += 1;
    }
    proof {
        lemma_fundamental_div_mod(x as int, i as int);
        vstd::arithmetic::div_mod::lemma_mod_bound(x as int, i as int);
        let xn = x as nat;
        assert forall|d: nat| 2 <= d < xn implies #[trigger] (xn % d) != 0 by {
            if xn % d == 0 && d >= i {
                let e = xn / d;
                lemma_fundamental_div_mod(xn as int, d as int);
                assert(xn == d * e);
                assert(e >= 2) by (nonlinear_arith)
                    requires
                        xn == d * e,
                        2 <= d < xn,
                        e >= 0,
                ;
                assert(e < i) by (nonlinear_arith)
                    requires
                        xn == d * e,
                        d >= i,
                        i > x / i,
                        i >= 2,
                        e >= 2,
                        x == xn,
                        x == i * (x / i) + x % i,
                        0 <= x % i < i,
                ;
                lemma_mod_multiples_basic(d as int, e as int);
                assert(xn % e == 0) by (nonlinear_arith)
                    requires
                        xn == d * e,
                        e >= 2,
                        (d * e) % e == 0,
                        xn >= 0,
                ;
                assert(false);
            }
        }
    }
    true
}

} // verus!
