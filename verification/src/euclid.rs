//! Greatest common divisors: the Euclidean algorithm and its extended
//! form producing Bézout coefficients.

use vstd::prelude::*;

verus! {

/// The greatest common divisor, by the Euclidean recurrence.
pub open spec fn gcd_spec(x: nat, y: nat) -> nat
    decreases y,
{
    if y == 0 {
        x
    } else {
        gcd_spec(y, x % y)
    }
}

/// Compute the greatest common divisor of `x` and `y`.
#[verifier::loop_isolation(false)]
pub fn euclid(x: u64, y: u64) -> (r: u64)
    ensures
        r as nat == gcd_spec(x as nat, y as nat),
{
    let mut a = x;
    let mut b = y;
    while b > 0
        invariant
            gcd_spec(a as nat, b as nat) == gcd_spec(x as nat, y as nat),
        decreases b,
    {
        let t = a % b;
        a = b;
        b = t;
    }
    a
}

/// Extended Euclid on non-negative arguments: returns the gcd together
/// with Bézout coefficients of bounded magnitude.
#[verifier::loop_isolation(false)]
fn ext_gcd(a: i64, b: i64) -> (r: (i64, i64, i64))
    requires
        1 <= a <= 0x4000_0000,
        0 <= b <= 0x4000_0000,
    ensures
        r.0 == gcd_spec(a as nat, b as nat),
        r.1 * a + r.2 * b == r.0,
        -b <= r.1 <= b || r.1 == 1,
        -a <= r.2 <= a,
        b == 0 ==> r.1 == 1 && r.2 == 0,
    decreases b,
{
    if b == 0 {
        (a, 1, 0)
    } else {
        let q = a / b;
        let rem = a % b;
        proof {
            assert(rem as nat == (a as nat) % (b as nat));
            assert(0 <= q <= a && q * b <= a && rem == a - q * b) by (nonlinear_arith)
                requires
                    q == a / b,
                    rem == a % b,
                    1 <= b,
                    1 <= a,
            ;
        }
        let (g, u1, v1) = ext_gcd(b, rem);
        proof {
            assert(-0x4000_0000_0000_0000 <= q * v1 <= 0x4000_0000_0000_0000) by (nonlinear_arith)
                requires
                    0 <= q <= 0x4000_0000,
                    -0x4000_0000 <= v1 <= 0x4000_0000,
            ;
        }
        let u = v1;
        let v = u1 - q * v1;
        proof {
            assert(u1 * b + v1 * rem == g);
            assert(u * a + v * b == g) by (nonlinear_arith)
                requires
                    u == v1,
                    v == u1 - q * v1,
                    rem == a - q * b,
                    u1 * b + v1 * rem == g,
            ;
            assert(-a <= v <= a) by (nonlinear_arith)
                requires
                    v == u1 - q * v1,
                    1 <= b,
                    1 <= a,
                    0 <= rem < b,
                    rem == a - q * b,
                    0 <= q,
                    (-rem <= u1 <= rem || u1 == 1),
                    -b <= v1 <= b,
                    rem == 0 ==> v1 == 0 && u1 == 1,
            ;
        }
        (g, u, v)
    }
}

/// Compute Bézout coefficients `(p, q)` with
/// `p * x + q * y == gcd(|x|, |y|)`.  The magnitude bound keeps the
/// coefficient arithmetic inside the machine word.
pub fn ext_euclid(x: i64, y: i64) -> (r: (i64, i64))
    requires
        -0x4000_0000 <= x <= 0x4000_0000,
        -0x4000_0000 <= y <= 0x4000_0000,
    ensures
        r.0 * x + r.1 * y == gcd_spec(
            (if x < 0 {
                -x
            } else {
                x as int
            }) as nat,
            (if y < 0 {
                -y
            } else {
                y as int
            }) as nat,
        ),
{
    let ax = if x < 0 {
        -x
    } else {
        x
    };
    let ay = if y < 0 {
        -y
    } else {
        y
    };
    if ax == 0 && ay == 0 {
        proof {
            assert(gcd_spec(0, 0) == 0);
        }
        return (0, 0);
    }
    if ax == 0 {
        proof {
            assert((0nat) % (ay as nat) == 0nat);
            assert(gcd_spec(0, ay as nat) == gcd_spec(ay as nat, 0));
            assert(gcd_spec(ay as nat, 0) == ay);
        }
        let q: i64 = if y < 0 {
            -1
        } else {
            1
        };
        proof {
            assert(q * y == ay) by (nonlinear_arith)
                requires
                    (q == 1 && y >= 0 && ay == y) || (q == -1 && y < 0 && ay as int == -y),
            ;
        }
        return (0, q);
    }
    if ay == 0 {
        proof {
            assert(gcd_spec(ax as nat, 0) == ax);
        }
        let p: i64 = if x < 0 {
            -1
        } else {
            1
        };
        proof {
            assert(p * x == ax) by (nonlinear_arith)
                requires
                    (p == 1 && x >= 0 && ax == x) || (p == -1 && x < 0 && ax as int == -x),
            ;
        }
        return (p, 0);
    }
    let (_, u, v) = ext_gcd(ax, ay);
    let p = if x < 0 {
        -u
    } else {
        u
    };
    let q = if y < 0 {
        -v
    } else {
        v
    };
    proof {
        assert(p * x == u * ax && q * y == v * ay) by (nonlinear_arith)
            requires
                ax as int == (if x < 0 {
                    -x
                } else {
                    x as int
                }),
                ay as int == (if y < 0 {
                    -y
                } else {
                    y as int
                }),
                p as int == (if x < 0 {
                    -u
                } else {
                    u as int
                }),
                q as int == (if y < 0 {
                    -v
                } else {
                    v as int
                }),
        ;
    }
    (p, q)
}

} // verus!
