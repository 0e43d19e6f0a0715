//! Modular exponentiation by repeated squaring.

use vstd::prelude::*;
use vstd::arithmetic::power::pow;
use vstd::arithmetic::power::lemma_pow_mod_noop;
use vstd::arithmetic::power::lemma_pow_multiplies;
use vstd::arithmetic::power::lemma_pow1;
use vstd::arithmetic::power::lemma_pow_adds;
use vstd::arithmetic::div_mod::lemma_mul_mod_noop_left;
use vstd::arithmetic::div_mod::lemma_mul_mod_noop_right;
use vstd::arithmetic::div_mod::lemma_small_mod;
use vstd::arithmetic::div_mod::lemma_mod_bound;

verus! {

/// Compute `x^n mod m` in logarithmically many squarings.
///
/// The modulus must fit in 32 bits so that every intermediate product
/// fits in the machine word.
#[verifier::loop_isolation(false)]
pub fn mod_pow(x: u64, n: u64, m: u64) -> (r: u64)
    requires
        1 <= m,
        m <= 0xFFFF_FFFF,
    ensures
        r == pow(x as int, n as nat) % (m as int),
{
    let mut res: u64 = 1 % m;
    let mut base: u64 = x % m;
    let mut e: u64 = n;
    proof {
        lemma_pow_mod_noop(x as int, n as nat, m as int);
        if m == 1 {
            lemma_mod_bound(res as int * pow(base as int, e as nat), 1);
            lemma_mod_bound(pow(x as int, n as nat), 1);
        } else {
            lemma_small_mod(1nat, m as nat);
            assert(res == 1);
        }
    }
    while e > 0
        invariant
            res < m,
            base < m,
            (res * pow(base as int, e as nat)) % (m as int) == pow(x as int, n as nat) % (
            m as int),
        decreases e,
    {
        let ghost res0 = res as int;
        let ghost base0 = base as int;
        let ghost e0 = e as nat;
        proof {
            assert(res0 * base0 <= 0xFFFF_FFFE * 0xFFFF_FFFE && base0 * base0 <= 0xFFFF_FFFE
                * 0xFFFF_FFFE) by (nonlinear_arith)
                requires
                    0 <= res0 < m,
                    0 <= base0 < m,
                    m <= 0xFFFF_FFFF,
            ;
        }
        if e % 2 == 1 {
            res = res * base % m;
            proof {
                let pp = pow(base0, (e0 - 1) as nat);
                lemma_pow1(base0);
                lemma_pow_adds(base0, 1, (e0 - 1) as nat);
                assert(pow(base0, e0) == base0 * pp);
                assert(res0 * (base0 * pp) == (res0 * base0) * pp) by (nonlinear_arith);
                lemma_mul_mod_noop_left(res0 * base0, pp, m as int);
                assert((res as int * pp) % (m as int) == ((res0 * base0) * pp) % (m as int));
                assert((res as int * pp) % (m as int) == pow(x as int, n as nat) % (m as int));
            }
        } else {
            proof {
                assert(pow(base0, e0) == pow(base0, (e0 - 1) as nat) * base0) by {
                    lemma_pow1(base0);
                    lemma_pow_adds(base0, (e0 - 1) as nat, 1);
                };
            }
        }
        let ghost res1 = res as int;
        let ghost e1: nat = if e0 % 2 == 1 { (e0 - 1) as nat } else { e0 };
        base = base * base % m;
        e /= 2;
        proof {
            // e1 is even and e1 / 2 == e, so pow(base0, e1) == pow(base0 * base0, e)
            assert(e1 == 2 * (e as nat)) by (nonlinear_arith)
                requires
                    e as nat == e0 / 2,
                    e1 == (if e0 % 2 == 1 { (e0 - 1) as nat } else { e0 }),
                    e0 == 2 * (e0 / 2) + (e0 % 2),
                    0 <= e0 % 2 < 2,
            ;
            lemma_pow_multiplies(base0, 2, e as nat);
            lemma_pow1(base0);
            lemma_pow_adds(base0, 1, 1);
            assert(pow(base0, 2) == base0 * base0);
            lemma_pow_mod_noop(base0 * base0, e as nat, m as int);
            lemma_mul_mod_noop_right(res1, pow(base0 * base0, e as nat), m as int);
            lemma_mul_mod_noop_right(res1, pow(base as int, e as nat), m as int);
            lemma_mod_bound(base0 * base0, m as int);
            assert(pow(base as int, e as nat) % (m as int) == pow(base0 * base0, e as nat) % (
            m as int));
            assert((res as int * pow(base as int, e as nat)) % (m as int) == pow(x as int, n as nat)
                % (m as int));
        }
    }
    proof {
        vstd::arithmetic::power::lemma_pow0(base as int);
        vstd::arithmetic::div_mod::lemma_small_mod(res as nat, m as nat);
    }
    res
}

} // verus!
