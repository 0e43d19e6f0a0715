//! A sieve of Eratosthenes that records each number's smallest prime
//! factor, giving constant-time primality tests and fast factorization.

use vstd::prelude::*;
use vstd::arithmetic::div_mod::lemma_fundamental_div_mod;
use vstd::arithmetic::div_mod::lemma_mod_multiples_basic;
use crate::prime::is_prime_spec;
use vstd::arithmetic::power::pow;
use vstd::arithmetic::power::lemma_pow1;
use vstd::arithmetic::power::lemma_pow_adds;

verus! {

/// The smallest divisor of `k` that is at least `d` (or `k` itself if
/// none is below `k`).
pub open spec fn spf_from(k: nat, d: nat) -> nat
    decreases k - d,
{
    if d < 2 || d >= k {
        k
    } else if k % d == 0 {
        d
    } else {
        spf_from(k, d + 1)
    }
}

/// The smallest prime factor of `k`.
pub open spec fn spf(k: nat) -> nat {
    spf_from(k, 2)
}

/// What the search returns divides `k` and nothing smaller in the
/// searched range does.
proof fn lemma_spf_from_props(k: nat, d: nat)
    requires
        2 <= d <= k,
    ensures
        d <= spf_from(k, d) <= k,
        spf_from(k, d) == k || k % spf_from(k, d) == 0,
        forall|e: nat| d <= e < spf_from(k, d) ==> #[trigger] (k % e) != 0,
    decreases k - d,
{
    if d < k && k % d != 0 {
        lemma_spf_from_props(k, d + 1);
    }
}

/// The basic facts about the smallest prime factor of `k >= 2`: it is
/// at least two, at most `k`, divides `k`, and nothing smaller does.
pub proof fn lemma_spf_props(k: nat)
    requires
        k >= 2,
    ensures
        2 <= spf(k) <= k,
        k % spf(k) == 0,
        forall|e: nat| 2 <= e < spf(k) ==> #[trigger] (k % e) != 0,
{
    lemma_spf_from_props(k, 2);
    if spf(k) == k {
        lemma_mod_multiples_basic(1, k as int);
    }
}

/// Any divisor of `k` in `[2, k]` is at least the smallest prime
/// factor.
pub proof fn lemma_spf_minimal(k: nat, d: nat)
    requires
        k >= 2,
        2 <= d,
        k % d == 0,
    ensures
        spf(k) <= d,
{
    lemma_spf_props(k);
    if d < spf(k) {
        assert(k % d != 0);
    }
}

/// A number equals its smallest prime factor exactly when it is prime.
pub proof fn lemma_spf_prime(k: nat)
    requires
        k >= 2,
    ensures
        (spf(k) == k) == is_prime_spec(k),
{
    lemma_spf_props(k);
    if spf(k) == k {
        assert(forall|e: nat| 2 <= e < k ==> #[trigger] (k % e) != 0);
    } else {
        assert(k % spf(k) == 0);
    }
}

/// The smallest prime factor is itself prime.
pub proof fn lemma_spf_is_prime(k: nat)
    requires
        k >= 2,
    ensures
        is_prime_spec(spf(k)),
{
    lemma_spf_props(k);
    let p = spf(k);
    assert forall|e: nat| 2 <= e < p implies #[trigger] (p % e) != 0 by {
        if p % e == 0 {
            lemma_fundamental_div_mod(p as int, e as int);
            lemma_fundamental_div_mod(k as int, p as int);
            let q = p / e;
            let m = k / p;
            assert(p == e * q);
            assert(k == p * m);
            assert(k == e * (q * m)) by (nonlinear_arith)
                requires
                    p == e * q,
                    k == p * m,
            ;
            lemma_mod_multiples_basic((q * m) as int, e as int);
            assert((q * m) * (e as int) % (e as int) == 0);
            assert(k % e == 0) by (nonlinear_arith)
                requires
                    k == e * (q * m),
                    e >= 2,
                    (q * m) * (e as int) % (e as int) == 0,
            ;
            assert(k % e != 0);
        }
    }
}

/// The sieve: `values[k]` holds the smallest prime factor of `k` for
/// every `k >= 2` in range, and `None` for zero and one.
pub struct Erathosthenes {
    values: Vec<Option<usize>>,
}

impl Erathosthenes {
    /// The largest number the sieve covers.
    pub closed spec fn spec_max(&self) -> int {
        self.values@.len() - 1
    }

    /// Every entry is the smallest prime factor of its index.
    pub closed spec fn wf(&self) -> bool {
        &&& self.values@.len() >= 2
        &&& self.values@[0] == Option::<usize>::None
        &&& self.values@[1] == Option::<usize>::None
        &&& forall|k: int|
            2 <= k < self.values@.len() ==> #[trigger] self.values@[k] == Some(
                spf(k as nat) as usize,
            )
    }

    /// Sieve all numbers up to `max_value`.
    #[verifier::loop_isolation(false)]
    #[verifier::rlimit(100)]
    pub fn new(max_value: usize) -> (r: Self)
        requires
            1 <= max_value,
            max_value < usize::MAX,
        ensures
            r.wf(),
            r.spec_max() == max_value,
    {
        let mut values: Vec<Option<usize>> = Vec::new();
        values.push(None);
        values.push(None);
        let mut i: usize = 2;
        while i <= max_value
            invariant
                2 <= i <= max_value + 1,
                values@.len() == i,
                values@[0] == Option::<usize>::None,
                values@[1] == Option::<usize>::None,
                forall|k: int| 2 <= k < i ==> #[trigger] values@[k] == Some(k as usize),
            decreases max_value + 1 - i,
        {
            values.push(Some(i));
            i += 1;
        }
        proof {
            assert forall|k: int|
                2 <= k <= max_value implies #[trigger] values@[k] == Some(
                (if spf(k as nat) < 2 {
                    spf(k as nat)
                } else {
                    k as nat
                }) as usize,
            ) by {
                lemma_spf_props(k as nat);
            }
        }
        let mut base: usize = 2;
        while base <= max_value
            invariant
                2 <= base <= max_value + 1,
                values@.len() == max_value + 1,
                values@[0] == Option::<usize>::None,
                values@[1] == Option::<usize>::None,
                forall|k: int|
                    2 <= k <= max_value ==> #[trigger] values@[k] == Some(
                        (if spf(k as nat) < base {
                            spf(k as nat)
                        } else {
                            k as nat
                        }) as usize,
                    ),
            decreases max_value + 1 - base,
        {
            proof {
                lemma_spf_props(base as nat);
            }
            let is_base_prime = match values[base] {
                Some(p) => p == base,
                None => false,
            };
            if is_base_prime {
                proof {
                    assert(spf(base as nat) >= base);
                    assert(spf(base as nat) == base);
                }
                let mut ratio: usize = base;
                while ratio <= max_value / base
                    invariant
                        base <= ratio,
                        ratio == base || ratio <= max_value / base + 1,
                        spf(base as nat) == base,
                        values@.len() == max_value + 1,
                        values@[0] == Option::<usize>::None,
                        values@[1] == Option::<usize>::None,
                        forall|k: int|
                            2 <= k <= max_value ==> #[trigger] values@[k] == Some(
                                (if spf(k as nat) < base {
                                    spf(k as nat)
                                } else if spf(k as nat) == base && k >= base * base && k < base
                                    * ratio {
                                    base as nat
                                } else {
                                    k as nat
                                }) as usize,
                            ),
                    decreases max_value / base + 1 - ratio,
                {
                    proof {
                        lemma_fundamental_div_mod(max_value as int, base as int);
                        assert(base * ratio <= max_value) by (nonlinear_arith)
                            requires
                                ratio <= max_value / base,
                                base >= 2,
                                max_value == base * (max_value / base) + max_value % base,
                                max_value % base >= 0,
                        ;
                    }
                    let target = base * ratio;
                    let needs_mark = match values[target] {
                        Some(p) => p == target,
                        None => false,
                    };
                    if needs_mark {
                        proof {
                            lemma_spf_props(target as nat);
                            lemma_mod_multiples_basic(ratio as int, base as int);
                            assert((target as nat) % (base as nat) == 0) by (nonlinear_arith)
                                requires
                                    target == base * ratio,
                                    base >= 2,
                                    ((ratio as int) * (base as int)) % (base as int) == 0,
                            ;
                            lemma_spf_minimal(target as nat, base as nat);
                            assert(target > base && target >= base * base) by (nonlinear_arith)
                                requires
                                    target == base * ratio,
                                    ratio >= base,
                                    base >= 2,
                            ;
                            assert(values@[target as int] == Some(target));
                            if spf(target as nat) < base {
                                assert(spf(target as nat) as usize == target);
                                assert(false);
                            }
                            assert(spf(target as nat) == base);
                        }
                        values[target] = Some(base);
                    }
                    proof {
                        assert(target < base * (ratio + 1)) by (nonlinear_arith)
                            requires
                                target == base * ratio,
                                base >= 1,
                        ;
                        assert forall|k: int|
                            2 <= k <= max_value implies #[trigger] values@[k] == Some(
                            (if spf(k as nat) < base {
                                spf(k as nat)
                            } else if spf(k as nat) == base && k >= base * base && k < base * (
                            ratio + 1) {
                                base as nat
                            } else {
                                k as nat
                            }) as usize,
                        ) by {
                            if k == target {
                                assert(k >= base * base) by (nonlinear_arith)
                                    requires
                                        k == base * ratio,
                                        ratio >= base,
                                        base >= 2,
                                ;
                            } else {
                                if spf(k as nat) == base && k >= base * base && k < base * (ratio
                                    + 1) && !(k < base * ratio) {
                                    assert(k % (base as int) == 0) by {
                                        lemma_spf_props(k as nat);
                                    }
                                    lemma_fundamental_div_mod(k as int, base as int);
                                    assert(k == base * (k / (base as int)));
                                    assert(k / (base as int) == ratio) by (nonlinear_arith)
                                        requires
                                            k == base * (k / (base as int)),
                                            base * ratio <= k,
                                            k < base * (ratio + 1),
                                            base >= 1,
                                    ;
                                    assert(k == target);
                                }
                            }
                        }
                    }
                    ratio += 1;
                }
                proof {
                    assert forall|k: int|
                        2 <= k <= max_value && spf(k as nat) == base && k >= base * base
                        implies #[trigger] values@[k] == Some(base as usize) by {
                        lemma_fundamental_div_mod(max_value as int, base as int);
                        assert(k < base * ratio) by (nonlinear_arith)
                            requires
                                ratio >= max_value / base + 1,
                                k <= max_value,
                                max_value == base * (max_value / base) + max_value % base,
                                max_value % base >= 0,
                                base >= 2,
                        ;
                    }
                }
            }
            proof {
                assert forall|k: int|
                    2 <= k <= max_value implies #[trigger] values@[k] == Some(
                    (if spf(k as nat) < base + 1 {
                        spf(k as nat)
                    } else {
                        k as nat
                    }) as usize,
                ) by {
                    let kn = k as nat;
                    lemma_spf_props(kn);
                    if spf(kn) < base {
                        assert(values@[k] == Some(spf(kn) as usize));
                    } else if spf(kn) > base {
                        assert(values@[k] == Some(k as usize));
                    }
                    if spf(kn) == base {
                        // every multiple of a prime base with that smallest factor
                        // was marked, except base itself, which is already right
                        lemma_fundamental_div_mod(k as int, base as int);
                        let t = k / (base as int);
                        assert(k == base * t);
                        if k != base {
                            assert(t >= 2) by (nonlinear_arith)
                                requires
                                    k == base * t,
                                    k >= 2,
                                    k != base,
                                    base >= 2,
                                    t >= 0,
                            ;
                            assert(is_base_prime) by {
                                if !is_base_prime {
                                    assert(spf(base as nat) < base);
                                    lemma_spf_props(base as nat);
                                    let p = spf(base as nat);
                                    assert((base as nat) % p == 0);
                                    lemma_fundamental_div_mod(base as int, p as int);
                                    let q = base as int / (p as int);
                                    assert(base == p * q);
                                    assert(k == p * (q * t)) by (nonlinear_arith)
                                        requires
                                            k == base * t,
                                            base == p * q,
                                    ;
                                    lemma_mod_multiples_basic(q * t, p as int);
                                    assert(k % (p as int) == 0) by (nonlinear_arith)
                                        requires
                                            k == p * (q * t),
                                            p >= 2,
                                            ((p as int) * (q * t)) % (p as int) == 0,
                                    ;
                                    lemma_spf_minimal(kn, p);
                                    assert(spf(kn) <= p < base);
                                }
                            }
                            assert(t >= base) by {
                                if t < base {
                                    lemma_spf_props(t as nat);
                                    let pt = spf(t as nat);
                                    assert((t as nat) % pt == 0);
                                    lemma_fundamental_div_mod(t, pt as int);
                                    let qt = t / pt as int;
                                    assert(t == pt * qt);
                                    assert(k == pt * (qt * base)) by (nonlinear_arith)
                                        requires
                                            k == base * t,
                                            t == pt * qt,
                                    ;
                                    lemma_mod_multiples_basic(qt * base, pt as int);
                                    assert(k % (pt as int) == 0) by (nonlinear_arith)
                                        requires
                                            k == pt * (qt * base),
                                            pt >= 2,
                                            ((pt as int) * (qt * base)) % (pt as int) == 0,
                                    ;
                                    lemma_spf_minimal(kn, pt);
                                    assert(spf(kn) <= pt <= t < base);
                                }
                            }
                            lemma_fundamental_div_mod(max_value as int, base as int);
                            assert(k >= base * base && k < base * ((max_value / base) + 1))
                                by (nonlinear_arith)
                                requires
                                    k == base * t,
                                    t >= base,
                                    base >= 2,
                                    k <= max_value,
                                    max_value == base * (max_value / base) + max_value % base,
                                    max_value % base >= 0,
                                    max_value % base < base,
                            ;
                            assert(values@[k] == Some(base as usize));
                        } else {
                            assert(values@[k] == Some(base as usize));
                        }
                        assert(values@[k] == Some(spf(kn) as usize));
                    }
                }
            }
            base += 1;
        }
        proof {
            assert forall|k: int|
                2 <= k <= max_value implies #[trigger] values@[k] == Some(spf(k as nat) as usize) by {
                lemma_spf_props(k as nat);
            }
        }
        Erathosthenes { values }
    }

    /// Is `value` prime?
    pub fn is_prime(&self, value: usize) -> (r: bool)
        requires
            self.wf(),
            value <= self.spec_max(),
        ensures
            r == (value >= 2 && is_prime_spec(value as nat)),
    {
        proof {
            if value >= 2 {
                lemma_spf_props(value as nat);
                lemma_spf_prime(value as nat);
                assert(self.values@[value as int] == Some(spf(value as nat) as usize));
            }
        }
        match self.values[value] {
            Some(p) => p == value,
            None => false,
        }
    }
}

/// The product of a list of prime-power factors.
pub open spec fn factorization_product(ps: Seq<(usize, usize)>) -> int
    decreases ps.len(),
{
    if ps.len() == 0 {
        1
    } else {
        factorization_product(ps.drop_last()) * pow(ps.last().0 as int, ps.last().1 as nat)
    }
}

impl Erathosthenes {
    /// Factor `value` into prime powers: each listed base is prime,
    /// each exponent positive, and the product of the prime powers is
    /// `value` again.
    #[verifier::loop_isolation(false)]
    pub fn prime_factorize(&self, value: usize) -> (r: Vec<(usize, usize)>)
        requires
            self.wf(),
            1 <= value <= self.spec_max(),
        ensures
            factorization_product(r@) == value,
            forall|k: int|
                0 <= k < r@.len() ==> is_prime_spec((#[trigger] r@[k]).0 as nat) && r@[k].1 >= 1,
            forall|i: int, j: int|
                0 <= i < j < r@.len() ==> (#[trigger] r@[i]).0 < (#[trigger] r@[j]).0,
    {
        let cap = self.values.len();
        let mut res: Vec<(usize, usize)> = Vec::new();
        let mut v = value;
        while v > 1
            invariant
                1 <= v <= value,
                factorization_product(res@) * v == value,
                forall|k: int|
                    0 <= k < res@.len() ==> is_prime_spec((#[trigger] res@[k]).0 as nat)
                        && res@[k].1 >= 1,
                forall|i: int, j: int|
                    0 <= i < j < res@.len() ==> (#[trigger] res@[i]).0 < (#[trigger] res@[j]).0,
                res@.len() > 0 && v > 1 ==> (res@.last().0 as nat) < spf(v as nat),
            decreases v,
        {
            let f = match self.values[v] {
                Some(p) => p,
                None => 1,
            };
            proof {
                lemma_spf_props(v as nat);
                lemma_spf_is_prime(v as nat);
                assert(f == spf(v as nat));
                assert(2 <= f <= v);
                assert((v as nat) % (f as nat) == 0);
            }
            let ghost v0 = v as int;
            let mut exp: usize = 0;
            proof {
                vstd::arithmetic::power::lemma_pow0(f as int);
            }
            while v % f == 0
                invariant
                    1 <= v,
                    2 <= f,
                    exp + v <= v0 + 1,
                    pow(f as int, exp as nat) * v == v0,
                    v <= v0 <= value,
                decreases v,
            {
                let ghost vb = v as int;
                let ghost eb = exp as nat;
                proof {
                    assert(v >= f) by {
                        vstd::arithmetic::div_mod::lemma_fundamental_div_mod(vb, f as int);
                        assert(vb == f * (vb / (f as int)));
                        if vb < f {
                            assert(vb / (f as int) == 0) by (nonlinear_arith)
                                requires
                                    0 <= vb < f,
                                    f >= 2,
                            ;
                        }
                    }
                }
                v = v / f;
                exp += 1;
                proof {
                    vstd::arithmetic::div_mod::lemma_fundamental_div_mod(vb, f as int);
                    assert(v as int + 1 <= vb) by (nonlinear_arith)
                        requires
                            v as int == vb / (f as int),
                            vb >= 2,
                            f >= 2,
                            vb == f * (v as int) + vb % (f as int),
                            0 <= vb % (f as int),
                    ;
                    assert(vb == f * (v as int));
                    assert(v >= 1) by (nonlinear_arith)
                        requires
                            vb == f * (v as int),
                            vb >= 1,
                            f >= 2,
                            v as int >= 0,
                    ;
                    lemma_pow1(f as int);
                    lemma_pow_adds(f as int, eb, 1);
                    assert(pow(f as int, (eb + 1) as nat) == pow(f as int, eb) * f);
                    assert(pow(f as int, eb + 1) * (v as int) == pow(f as int, eb) * vb)
                        by (nonlinear_arith)
                        requires
                            pow(f as int, (eb + 1) as nat) == pow(f as int, eb) * (f as int),
                            vb == (f as int) * (v as int),
                    ;
                }
            }
            proof {
                assert(exp >= 1);
                if v > 1 {
                    lemma_spf_props(v as nat);
                    let d = spf(v as nat) as int;
                    vstd::arithmetic::div_mod::lemma_fundamental_div_mod(v as int, d);
                    assert(v as int == d * (v as int / d));
                    assert(v0 == d * (pow(f as int, exp as nat) * (v as int / d)))
                        by (nonlinear_arith)
                        requires
                            pow(f as int, exp as nat) * v == v0,
                            v as int == d * (v as int / d),
                    ;
                    lemma_mod_multiples_basic(pow(f as int, exp as nat) * (v as int / d), d);
                    assert(v0 % d == 0) by (nonlinear_arith)
                        requires
                            v0 == d * (pow(f as int, exp as nat) * (v as int / d)),
                            d >= 2,
                            ((pow(f as int, exp as nat) * (v as int / d)) * d) % d == 0,
                    ;
                    assert((v0 as nat) % (d as nat) == 0);
                    lemma_spf_minimal(v0 as nat, d as nat);
                    assert(f <= d);
                    if d == f {
                        assert((v as nat) % (f as nat) == 0);
                        assert(false);
                    }
                    assert(f < spf(v as nat));
                }
            }
            let ghost rb = res@;
            res.push((f, exp));
            proof {
                assert(res@.drop_last() =~= rb);
                assert(res@.last() == (f, exp));
                assert(factorization_product(res@) == factorization_product(rb) * pow(
                    f as int,
                    exp as nat,
                ));
                assert(factorization_product(res@) * v == value) by (nonlinear_arith)
                    requires
                        factorization_product(res@) == factorization_product(rb) * pow(
                            f as int,
                            exp as nat,
                        ),
                        pow(f as int, exp as nat) * v == v0,
                        factorization_product(rb) * v0 == value,
                ;
                assert forall|i: int, j: int|
                    0 <= i < j < res@.len() implies (#[trigger] res@[i]).0
                    < (#[trigger] res@[j]).0 by {
                    if j == res@.len() - 1 {
                        assert(res@[i] == rb[i]);
                        assert(res@[j].0 == f);
                        if i < rb.len() - 1 {
                            assert(rb[i].0 < rb[rb.len() - 1].0);
                        }
                        assert((rb[rb.len() - 1].0 as nat) < spf(v0 as nat));
                        assert(f == spf(v0 as nat));
                    } else {
                        assert(res@[i] == rb[i] && res@[j] == rb[j]);
                    }
                }
            }
        }
        res
    }
}

} // verus!
