//! The reference instantiation of the lazy tree's capability: values are
//! `(sum, count)` pairs of `i64` and transforms are the five-variant
//! affine family, with `SetTo` absorbing whatever was pending before it.
//!
//! All arithmetic is two's-complement wrapping arithmetic on 64 bits, so
//! every algebraic law holds for every input: the laws are ring
//! identities modulo `2^64`.

use vstd::prelude::*;
use vstd::arithmetic::div_mod::lemma_add_mod_noop;
use vstd::arithmetic::div_mod::lemma_sub_mod_noop;
use vstd::arithmetic::div_mod::lemma_mul_mod_noop;
use vstd::arithmetic::div_mod::lemma_small_mod;
use vstd::arithmetic::div_mod::lemma_mod_multiples_vanish;
use vstd::arithmetic::div_mod::lemma_mod_bound;
use crate::lazy_segtree::MonoidWithMorphism;
use crate::segtree::Monoid;
use crate::fenwick_tree::AbelianGroup;

verus! {

/// Two's-complement wrap of an unbounded integer into the `i64` range.
pub open spec fn wrap(x: int) -> int {
    ((x + 0x8000_0000_0000_0000) % 0x1_0000_0000_0000_0000) - 0x8000_0000_0000_0000
}

/// The wrapped value, as an `i64`.
pub open spec fn wrap_i64(x: int) -> i64 {
    wrap(x) as i64
}

/// The sum of two `i64` values, wrapped.
pub open spec fn wadd_spec(a: i64, b: i64) -> i64 {
    wrap_i64(a + b)
}

/// The product of two `i64` values, wrapped.
pub open spec fn wmul_spec(a: i64, b: i64) -> i64 {
    wrap_i64(a * b)
}

/// The wrap always lands in the `i64` range.
pub proof fn lemma_wrap_bounds(x: int)
    ensures
        -0x8000_0000_0000_0000 <= wrap(x) < 0x8000_0000_0000_0000,
{
    lemma_mod_bound(x + 0x8000_0000_0000_0000, 0x1_0000_0000_0000_0000);
}

/// Converting the wrap to `i64` loses nothing.
pub broadcast proof fn lemma_wrap_val(x: int)
    ensures
        #[trigger] wrap_i64(x) as int == wrap(x),
{
    lemma_wrap_bounds(x);
}

/// A value already in range is its own wrap.
pub proof fn lemma_wrap_in_range(x: int)
    requires
        -0x8000_0000_0000_0000 <= x < 0x8000_0000_0000_0000,
    ensures
        wrap(x) == x,
{
    lemma_small_mod((x + 0x8000_0000_0000_0000) as nat, 0x1_0000_0000_0000_0000 as nat);
}

/// The wrap preserves the residue modulo `2^64`.
pub proof fn lemma_wrap_mod(x: int)
    ensures
        wrap(x) % 0x1_0000_0000_0000_0000 == x % 0x1_0000_0000_0000_0000,
{
    let h: int = 0x8000_0000_0000_0000;
    let w: int = 0x1_0000_0000_0000_0000;
    lemma_small_mod(h as nat, w as nat);
    lemma_sub_mod_noop(x + h, h, w);
    assert(((x + h) % w - h % w) % w == x % w);
}

/// Two integers with the same residue have the same wrap.
pub proof fn lemma_wrap_congruent(u: int, v: int)
    requires
        u % 0x1_0000_0000_0000_0000 == v % 0x1_0000_0000_0000_0000,
    ensures
        wrap(u) == wrap(v),
{
    let h: int = 0x8000_0000_0000_0000;
    let w: int = 0x1_0000_0000_0000_0000;
    lemma_small_mod(h as nat, w as nat);
    lemma_add_mod_noop(u, h, w);
    lemma_add_mod_noop(v, h, w);
}

/// Replacing the arguments of a wrapped sum by integers with the same
/// residue gives the same wrapped result, with the expected residue.
pub proof fn lemma_wadd_cong(a: i64, b: i64, x: int, y: int)
    requires
        a as int % 0x1_0000_0000_0000_0000 == x % 0x1_0000_0000_0000_0000,
        b as int % 0x1_0000_0000_0000_0000 == y % 0x1_0000_0000_0000_0000,
    ensures
        wadd_spec(a, b) == wrap_i64(x + y),
        wadd_spec(a, b) as int % 0x1_0000_0000_0000_0000 == (x + y) % 0x1_0000_0000_0000_0000,
{
    let w: int = 0x1_0000_0000_0000_0000;
    lemma_add_mod_noop(a as int, b as int, w);
    lemma_add_mod_noop(x, y, w);
    lemma_wrap_congruent(a + b, x + y);
    lemma_wrap_val(a + b);
    lemma_wrap_val(x + y);
    lemma_wrap_mod(x + y);
}

/// Replacing the arguments of a wrapped product by integers with the
/// same residue gives the same wrapped result, with the expected
/// residue.
pub proof fn lemma_wmul_cong(a: i64, b: i64, x: int, y: int)
    requires
        a as int % 0x1_0000_0000_0000_0000 == x % 0x1_0000_0000_0000_0000,
        b as int % 0x1_0000_0000_0000_0000 == y % 0x1_0000_0000_0000_0000,
    ensures
        wmul_spec(a, b) == wrap_i64(x * y),
        wmul_spec(a, b) as int % 0x1_0000_0000_0000_0000 == (x * y) % 0x1_0000_0000_0000_0000,
{
    let w: int = 0x1_0000_0000_0000_0000;
    lemma_mul_mod_noop(a as int, b as int, w);
    lemma_mul_mod_noop(x, y, w);
    lemma_wrap_congruent(a as int * b as int, x * y);
    lemma_wrap_val(a as int * b as int);
    lemma_wrap_val(x * y);
    lemma_wrap_mod(x * y);
}

/// Wrapping addition of two `i64` values.
pub fn wadd(a: i64, b: i64) -> (r: i64)
    ensures
        r == wadd_spec(a, b),
{
    proof {
        let h: int = 0x8000_0000_0000_0000;
        let w: int = 0x1_0000_0000_0000_0000;
        let x = a as int + b as int;
        if x > i64::MAX {
            lemma_mod_multiples_vanish(1, x + h - w, w);
            lemma_small_mod((x + h - w) as nat, w as nat);
        } else if x < i64::MIN {
            lemma_mod_multiples_vanish(-1, x + h + w, w);
            lemma_small_mod((x + h + w) as nat, w as nat);
        } else {
            lemma_wrap_in_range(x);
        }
        lemma_wrap_bounds(x);
    }
    a.wrapping_add(b)
}

/// Wrapping multiplication of two `i64` values.
pub fn wmul(a: i64, b: i64) -> (r: i64)
    ensures
        r == wmul_spec(a, b),
{
    proof {
        let h: int = 0x8000_0000_0000_0000;
        let w: int = 0x1_0000_0000_0000_0000;
        let x = a as int * b as int;
        let m = x % w;
        lemma_mod_bound(x, w);
        lemma_add_mod_noop(x, h, w);
        lemma_small_mod(h as nat, w as nat);
        if m >= h {
            lemma_mod_multiples_vanish(1, m + h - w, w);
            lemma_small_mod((m + h - w) as nat, w as nat);
        } else {
            lemma_small_mod((m + h) as nat, w as nat);
        }
        lemma_wrap_bounds(x);
    }
    a.wrapping_mul(b)
}


/// Composing an added constant onto a pending assignment.
proof fn lemma_case_add_set(a: i64, u: i64, c: i64)
    ensures
        wmul_spec(wadd_spec(u, a), c) == wadd_spec(wmul_spec(u, c), wmul_spec(a, c)),
{
    lemma_wadd_cong(u, a, u as int, a as int);
    lemma_wmul_cong(wadd_spec(u, a), c, u + a, c as int);
    lemma_wmul_cong(u, c, u as int, c as int);
    lemma_wmul_cong(a, c, a as int, c as int);
    lemma_wadd_cong(wmul_spec(u, c), wmul_spec(a, c), u as int * c, a as int * c);
    assert((u + a) * c == u as int * c + a as int * c) by (nonlinear_arith);
}

/// Composing an added constant onto a pending added constant.
proof fn lemma_case_add_add(a: i64, b: i64, s: i64, c: i64)
    ensures
        wadd_spec(s, wmul_spec(wadd_spec(a, b), c)) == wadd_spec(
            wadd_spec(s, wmul_spec(b, c)),
            wmul_spec(a, c),
        ),
{
    lemma_wadd_cong(a, b, a as int, b as int);
    lemma_wmul_cong(wadd_spec(a, b), c, a + b, c as int);
    lemma_wadd_cong(s, wmul_spec(wadd_spec(a, b), c), s as int, (a + b) * c);
    lemma_wmul_cong(b, c, b as int, c as int);
    lemma_wadd_cong(s, wmul_spec(b, c), s as int, b as int * c);
    lemma_wmul_cong(a, c, a as int, c as int);
    lemma_wadd_cong(
        wadd_spec(s, wmul_spec(b, c)),
        wmul_spec(a, c),
        s as int + b as int * c,
        a as int * c,
    );
    assert(s as int + (a + b) * c == s as int + b as int * c + a as int * c) by (nonlinear_arith);
}

/// A wrapped product is commutative.
proof fn lemma_case_mul_comm(a: i64, c: i64)
    ensures
        wmul_spec(c, a) == wmul_spec(a, c),
{
    lemma_wmul_cong(c, a, c as int, a as int);
    lemma_wmul_cong(a, c, a as int, c as int);
    assert(c as int * a == a as int * c) by (nonlinear_arith);
}

/// Composing an added constant onto a pending affine transform.
proof fn lemma_case_add_affine(a: i64, b: i64, d: i64, s: i64, c: i64)
    ensures
        wadd_spec(wmul_spec(s, b), wmul_spec(c, wadd_spec(d, a))) == wadd_spec(
            wadd_spec(wmul_spec(s, b), wmul_spec(c, d)),
            wmul_spec(a, c),
        ),
{
    lemma_wmul_cong(s, b, s as int, b as int);
    lemma_wadd_cong(d, a, d as int, a as int);
    lemma_wmul_cong(c, wadd_spec(d, a), c as int, d + a);
    lemma_wadd_cong(
        wmul_spec(s, b),
        wmul_spec(c, wadd_spec(d, a)),
        s as int * b,
        c as int * (d + a),
    );
    lemma_wmul_cong(c, d, c as int, d as int);
    lemma_wadd_cong(wmul_spec(s, b), wmul_spec(c, d), s as int * b, c as int * d);
    lemma_wmul_cong(a, c, a as int, c as int);
    lemma_wadd_cong(
        wadd_spec(wmul_spec(s, b), wmul_spec(c, d)),
        wmul_spec(a, c),
        s as int * b + c as int * d,
        a as int * c,
    );
    assert(s as int * b + c as int * (d + a) == s as int * b + c as int * d + a as int * c)
        by (nonlinear_arith);
}

/// Composing a multiplier onto a pending assignment.
proof fn lemma_case_mul_set(u: i64, m: i64, c: i64)
    ensures
        wmul_spec(wmul_spec(u, m), c) == wmul_spec(wmul_spec(u, c), m),
{
    lemma_wmul_cong(u, m, u as int, m as int);
    lemma_wmul_cong(wmul_spec(u, m), c, u as int * m, c as int);
    lemma_wmul_cong(u, c, u as int, c as int);
    lemma_wmul_cong(wmul_spec(u, c), m, u as int * c, m as int);
    assert(u as int * m * c == u as int * c * m) by (nonlinear_arith);
}

/// Composing a multiplier onto a pending added constant.
proof fn lemma_case_mul_add(m: i64, b: i64, s: i64, c: i64)
    ensures
        wadd_spec(wmul_spec(s, m), wmul_spec(c, wmul_spec(b, m))) == wmul_spec(
            wadd_spec(s, wmul_spec(b, c)),
            m,
        ),
{
    lemma_wmul_cong(s, m, s as int, m as int);
    lemma_wmul_cong(b, m, b as int, m as int);
    lemma_wmul_cong(c, wmul_spec(b, m), c as int, b as int * m);
    lemma_wadd_cong(
        wmul_spec(s, m),
        wmul_spec(c, wmul_spec(b, m)),
        s as int * m,
        c as int * (b as int * m),
    );
    lemma_wmul_cong(b, c, b as int, c as int);
    lemma_wadd_cong(s, wmul_spec(b, c), s as int, b as int * c);
    lemma_wmul_cong(wadd_spec(s, wmul_spec(b, c)), m, s as int + b as int * c, m as int);
    assert(s as int * m + c as int * (b as int * m) == (s as int + b as int * c) * m)
        by (nonlinear_arith);
}

/// Composing a multiplier onto a pending multiplier.
proof fn lemma_case_mul_mul(s: i64, b: i64, m: i64)
    ensures
        wmul_spec(s, wmul_spec(b, m)) == wmul_spec(wmul_spec(s, b), m),
{
    lemma_wmul_cong(b, m, b as int, m as int);
    lemma_wmul_cong(s, wmul_spec(b, m), s as int, b as int * m);
    lemma_wmul_cong(s, b, s as int, b as int);
    lemma_wmul_cong(wmul_spec(s, b), m, s as int * b, m as int);
    assert(s as int * (b as int * m) == s as int * b * m) by (nonlinear_arith);
}

/// Composing a multiplier onto a pending affine transform.
proof fn lemma_case_mul_affine(m: i64, b: i64, d: i64, s: i64, c: i64)
    ensures
        wadd_spec(wmul_spec(s, wmul_spec(b, m)), wmul_spec(c, wmul_spec(d, m))) == wmul_spec(
            wadd_spec(wmul_spec(s, b), wmul_spec(c, d)),
            m,
        ),
{
    lemma_wmul_cong(b, m, b as int, m as int);
    lemma_wmul_cong(s, wmul_spec(b, m), s as int, b as int * m);
    lemma_wmul_cong(d, m, d as int, m as int);
    lemma_wmul_cong(c, wmul_spec(d, m), c as int, d as int * m);
    lemma_wadd_cong(
        wmul_spec(s, wmul_spec(b, m)),
        wmul_spec(c, wmul_spec(d, m)),
        s as int * (b as int * m),
        c as int * (d as int * m),
    );
    lemma_wmul_cong(s, b, s as int, b as int);
    lemma_wmul_cong(c, d, c as int, d as int);
    lemma_wadd_cong(wmul_spec(s, b), wmul_spec(c, d), s as int * b, c as int * d);
    lemma_wmul_cong(
        wadd_spec(wmul_spec(s, b), wmul_spec(c, d)),
        m,
        s as int * b + c as int * d,
        m as int,
    );
    assert(s as int * (b as int * m) + c as int * (d as int * m) == (s as int * b + c as int * d)
        * m) by (nonlinear_arith);
}

/// Composing an affine transform onto a pending assignment.
proof fn lemma_case_affine_set(p: i64, q: i64, u: i64, c: i64)
    ensures
        wmul_spec(wadd_spec(wmul_spec(u, p), q), c) == wadd_spec(
            wmul_spec(wmul_spec(u, c), p),
            wmul_spec(c, q),
        ),
{
    lemma_wmul_cong(u, p, u as int, p as int);
    lemma_wadd_cong(wmul_spec(u, p), q, u as int * p, q as int);
    lemma_wmul_cong(wadd_spec(wmul_spec(u, p), q), c, u as int * p + q, c as int);
    lemma_wmul_cong(u, c, u as int, c as int);
    lemma_wmul_cong(wmul_spec(u, c), p, u as int * c, p as int);
    lemma_wmul_cong(c, q, c as int, q as int);
    lemma_wadd_cong(
        wmul_spec(wmul_spec(u, c), p),
        wmul_spec(c, q),
        u as int * c * p,
        c as int * q,
    );
    assert((u as int * p + q) * c == u as int * c * p + c as int * q) by (nonlinear_arith);
}

/// Composing an affine transform onto a pending added constant.
proof fn lemma_case_affine_add(p: i64, q: i64, b: i64, s: i64, c: i64)
    ensures
        wadd_spec(wmul_spec(s, p), wmul_spec(c, wadd_spec(wmul_spec(b, p), q))) == wadd_spec(
            wmul_spec(wadd_spec(s, wmul_spec(b, c)), p),
            wmul_spec(c, q),
        ),
{
    lemma_wmul_cong(s, p, s as int, p as int);
    lemma_wmul_cong(b, p, b as int, p as int);
    lemma_wadd_cong(wmul_spec(b, p), q, b as int * p, q as int);
    lemma_wmul_cong(c, wadd_spec(wmul_spec(b, p), q), c as int, b as int * p + q);
    lemma_wadd_cong(
        wmul_spec(s, p),
        wmul_spec(c, wadd_spec(wmul_spec(b, p), q)),
        s as int * p,
        c as int * (b as int * p + q),
    );
    lemma_wmul_cong(b, c, b as int, c as int);
    lemma_wadd_cong(s, wmul_spec(b, c), s as int, b as int * c);
    lemma_wmul_cong(wadd_spec(s, wmul_spec(b, c)), p, s as int + b as int * c, p as int);
    lemma_wmul_cong(c, q, c as int, q as int);
    lemma_wadd_cong(
        wmul_spec(wadd_spec(s, wmul_spec(b, c)), p),
        wmul_spec(c, q),
        (s as int + b as int * c) * p,
        c as int * q,
    );
    assert(s as int * p + c as int * (b as int * p + q) == (s as int + b as int * c) * p + c
        as int * q) by (nonlinear_arith);
}

/// Composing an affine transform onto a pending affine transform.
proof fn lemma_case_affine_affine(p: i64, q: i64, b: i64, d: i64, s: i64, c: i64)
    ensures
        wadd_spec(wmul_spec(s, wmul_spec(b, p)), wmul_spec(c, wadd_spec(wmul_spec(d, p), q)))
            == wadd_spec(
            wmul_spec(wadd_spec(wmul_spec(s, b), wmul_spec(c, d)), p),
            wmul_spec(c, q),
        ),
{
    lemma_wmul_cong(b, p, b as int, p as int);
    lemma_wmul_cong(s, wmul_spec(b, p), s as int, b as int * p);
    lemma_wmul_cong(d, p, d as int, p as int);
    lemma_wadd_cong(wmul_spec(d, p), q, d as int * p, q as int);
    lemma_wmul_cong(c, wadd_spec(wmul_spec(d, p), q), c as int, d as int * p + q);
    lemma_wadd_cong(
        wmul_spec(s, wmul_spec(b, p)),
        wmul_spec(c, wadd_spec(wmul_spec(d, p), q)),
        s as int * (b as int * p),
        c as int * (d as int * p + q),
    );
    lemma_wmul_cong(s, b, s as int, b as int);
    lemma_wmul_cong(c, d, c as int, d as int);
    lemma_wadd_cong(wmul_spec(s, b), wmul_spec(c, d), s as int * b, c as int * d);
    lemma_wmul_cong(
        wadd_spec(wmul_spec(s, b), wmul_spec(c, d)),
        p,
        s as int * b + c as int * d,
        p as int,
    );
    lemma_wmul_cong(c, q, c as int, q as int);
    lemma_wadd_cong(
        wmul_spec(wadd_spec(wmul_spec(s, b), wmul_spec(c, d)), p),
        wmul_spec(c, q),
        (s as int * b + c as int * d) * p,
        c as int * q,
    );
    assert(s as int * (b as int * p) + c as int * (d as int * p + q) == (s as int * b + c as int
        * d) * p + c as int * q) by (nonlinear_arith);
}

/// An assignment acts homomorphically on the pairwise sum.
proof fn lemma_case_hom_set(x: i64, c1: i64, c2: i64)
    ensures
        wmul_spec(x, wadd_spec(c1, c2)) == wadd_spec(wmul_spec(x, c1), wmul_spec(x, c2)),
{
    lemma_wadd_cong(c1, c2, c1 as int, c2 as int);
    lemma_wmul_cong(x, wadd_spec(c1, c2), x as int, c1 + c2);
    lemma_wmul_cong(x, c1, x as int, c1 as int);
    lemma_wmul_cong(x, c2, x as int, c2 as int);
    lemma_wadd_cong(wmul_spec(x, c1), wmul_spec(x, c2), x as int * c1, x as int * c2);
    assert(x as int * (c1 + c2) == x as int * c1 + x as int * c2) by (nonlinear_arith);
}

/// An added constant acts homomorphically on the pairwise sum.
proof fn lemma_case_hom_add(x: i64, s1: i64, c1: i64, s2: i64, c2: i64)
    ensures
        wadd_spec(wadd_spec(s1, s2), wmul_spec(x, wadd_spec(c1, c2))) == wadd_spec(
            wadd_spec(s1, wmul_spec(x, c1)),
            wadd_spec(s2, wmul_spec(x, c2)),
        ),
{
    lemma_wadd_cong(s1, s2, s1 as int, s2 as int);
    lemma_wadd_cong(c1, c2, c1 as int, c2 as int);
    lemma_wmul_cong(x, wadd_spec(c1, c2), x as int, c1 + c2);
    lemma_wadd_cong(
        wadd_spec(s1, s2),
        wmul_spec(x, wadd_spec(c1, c2)),
        s1 + s2,
        x as int * (c1 + c2),
    );
    lemma_wmul_cong(x, c1, x as int, c1 as int);
    lemma_wadd_cong(s1, wmul_spec(x, c1), s1 as int, x as int * c1);
    lemma_wmul_cong(x, c2, x as int, c2 as int);
    lemma_wadd_cong(s2, wmul_spec(x, c2), s2 as int, x as int * c2);
    lemma_wadd_cong(
        wadd_spec(s1, wmul_spec(x, c1)),
        wadd_spec(s2, wmul_spec(x, c2)),
        s1 as int + x as int * c1,
        s2 as int + x as int * c2,
    );
    assert(s1 + s2 + x as int * (c1 + c2) == s1 as int + x as int * c1 + (s2 as int + x as int
        * c2)) by (nonlinear_arith);
}

/// A multiplier acts homomorphically on the pairwise sum.
proof fn lemma_case_hom_mul(x: i64, s1: i64, s2: i64)
    ensures
        wmul_spec(wadd_spec(s1, s2), x) == wadd_spec(wmul_spec(s1, x), wmul_spec(s2, x)),
{
    lemma_wadd_cong(s1, s2, s1 as int, s2 as int);
    lemma_wmul_cong(wadd_spec(s1, s2), x, s1 + s2, x as int);
    lemma_wmul_cong(s1, x, s1 as int, x as int);
    lemma_wmul_cong(s2, x, s2 as int, x as int);
    lemma_wadd_cong(wmul_spec(s1, x), wmul_spec(s2, x), s1 as int * x, s2 as int * x);
    assert((s1 + s2) * x == s1 as int * x + s2 as int * x) by (nonlinear_arith);
}

/// An affine transform acts homomorphically on the pairwise sum.
proof fn lemma_case_hom_affine(x: i64, y: i64, s1: i64, c1: i64, s2: i64, c2: i64)
    ensures
        wadd_spec(wmul_spec(wadd_spec(s1, s2), x), wmul_spec(wadd_spec(c1, c2), y)) == wadd_spec(
            wadd_spec(wmul_spec(s1, x), wmul_spec(c1, y)),
            wadd_spec(wmul_spec(s2, x), wmul_spec(c2, y)),
        ),
{
    lemma_wadd_cong(s1, s2, s1 as int, s2 as int);
    lemma_wmul_cong(wadd_spec(s1, s2), x, s1 + s2, x as int);
    lemma_wadd_cong(c1, c2, c1 as int, c2 as int);
    lemma_wmul_cong(wadd_spec(c1, c2), y, c1 + c2, y as int);
    lemma_wadd_cong(
        wmul_spec(wadd_spec(s1, s2), x),
        wmul_spec(wadd_spec(c1, c2), y),
        (s1 + s2) * x,
        (c1 + c2) * y,
    );
    lemma_wmul_cong(s1, x, s1 as int, x as int);
    lemma_wmul_cong(c1, y, c1 as int, y as int);
    lemma_wadd_cong(wmul_spec(s1, x), wmul_spec(c1, y), s1 as int * x, c1 as int * y);
    lemma_wmul_cong(s2, x, s2 as int, x as int);
    lemma_wmul_cong(c2, y, c2 as int, y as int);
    lemma_wadd_cong(wmul_spec(s2, x), wmul_spec(c2, y), s2 as int * x, c2 as int * y);
    lemma_wadd_cong(
        wadd_spec(wmul_spec(s1, x), wmul_spec(c1, y)),
        wadd_spec(wmul_spec(s2, x), wmul_spec(c2, y)),
        s1 as int * x + c1 as int * y,
        s2 as int * x + c2 as int * y,
    );
    assert((s1 + s2) * x + (c1 + c2) * y == s1 as int * x + c1 as int * y + (s2 as int * x + c2
        as int * y)) by (nonlinear_arith);
}

/// A `(sum, count)` aggregate: the running sum of a range of elements
/// and the number of elements it covers.
#[derive(Clone, Copy, Debug, PartialEq, Eq)]
pub struct SumCount {
    /// The wrapped sum of the covered elements.
    pub sum: i64,
    /// The number of covered elements.
    pub count: i64,
}

/// The five-variant transform family of the reference instantiation,
/// acting on `(sum, count)` pairs.
#[derive(Clone, Copy, Debug, PartialEq, Eq)]
pub enum Morphism {
    /// Leave the value unchanged.
    Identity,
    /// Set every element of the range to the constant.
    SetTo(i64),
    /// Add the constant to every element of the range.
    AddConstant(i64),
    /// Multiply every element of the range by the constant.
    MultiplyBy(i64),
    /// Map every element `x` of the range to `a * x + b`.
    Affine(i64, i64),
}

/// The capability carrier: `(sum, count)` pairs under pairwise wrapped
/// addition, acted on by [`Morphism`].
pub struct O;

impl MonoidWithMorphism for O {
    type Value = SumCount;

    type Morphism = Morphism;

    open spec fn id_spec() -> SumCount {
        SumCount { sum: 0, count: 0 }
    }

    open spec fn op_spec(lhs: SumCount, rhs: SumCount) -> SumCount {
        SumCount { sum: wadd_spec(lhs.sum, rhs.sum), count: wadd_spec(lhs.count, rhs.count) }
    }

    open spec fn apply_spec(f: Morphism, v: SumCount) -> SumCount {
        match f {
            Morphism::Identity => v,
            Morphism::SetTo(x) => SumCount { sum: wmul_spec(x, v.count), count: v.count },
            Morphism::AddConstant(x) => SumCount {
                sum: wadd_spec(v.sum, wmul_spec(x, v.count)),
                count: v.count,
            },
            Morphism::MultiplyBy(x) => SumCount { sum: wmul_spec(v.sum, x), count: v.count },
            Morphism::Affine(x, y) => SumCount {
                sum: wadd_spec(wmul_spec(v.sum, x), wmul_spec(v.count, y)),
                count: v.count,
            },
        }
    }

    open spec fn id_map_spec() -> Morphism {
        Morphism::Identity
    }

    open spec fn compose_spec(f: Morphism, g: Morphism) -> Morphism {
        match f {
            Morphism::Identity => g,
            Morphism::SetTo(x) => match g {
                Morphism::Identity => f,
                _ => Morphism::SetTo(x),
            },
            Morphism::AddConstant(a) => match g {
                Morphism::Identity => f,
                Morphism::SetTo(u) => Morphism::SetTo(wadd_spec(u, a)),
                Morphism::AddConstant(b) => Morphism::AddConstant(wadd_spec(a, b)),
                Morphism::MultiplyBy(b) => Morphism::Affine(b, a),
                Morphism::Affine(b, d) => Morphism::Affine(b, wadd_spec(d, a)),
            },
            Morphism::MultiplyBy(m) => match g {
                Morphism::Identity => f,
                Morphism::SetTo(u) => Morphism::SetTo(wmul_spec(u, m)),
                Morphism::AddConstant(b) => Morphism::Affine(m, wmul_spec(b, m)),
                Morphism::MultiplyBy(b) => Morphism::MultiplyBy(wmul_spec(b, m)),
                Morphism::Affine(b, d) => Morphism::Affine(wmul_spec(b, m), wmul_spec(d, m)),
            },
            Morphism::Affine(p, q) => match g {
                Morphism::Identity => f,
                Morphism::SetTo(u) => Morphism::SetTo(wadd_spec(wmul_spec(u, p), q)),
                Morphism::AddConstant(b) => Morphism::Affine(p, wadd_spec(wmul_spec(b, p), q)),
                Morphism::MultiplyBy(b) => Morphism::Affine(wmul_spec(b, p), q),
                Morphism::Affine(b, d) => Morphism::Affine(
                    wmul_spec(b, p),
                    wadd_spec(wmul_spec(d, p), q),
                ),
            },
        }
    }

    proof fn lemma_identity(v: SumCount) {
        lemma_wrap_in_range(v.sum as int);
        lemma_wrap_in_range(v.count as int);
        lemma_wrap_val(0 + v.sum);
        lemma_wrap_val(v.sum + 0);
        lemma_wrap_val(0 + v.count);
        lemma_wrap_val(v.count + 0);
    }

    proof fn lemma_associative(a: SumCount, b: SumCount, c: SumCount) {
        lemma_wadd_cong(a.sum, b.sum, a.sum as int, b.sum as int);
        lemma_wadd_cong(wadd_spec(a.sum, b.sum), c.sum, a.sum + b.sum, c.sum as int);
        lemma_wadd_cong(b.sum, c.sum, b.sum as int, c.sum as int);
        lemma_wadd_cong(a.sum, wadd_spec(b.sum, c.sum), a.sum as int, b.sum + c.sum);
        lemma_wadd_cong(a.count, b.count, a.count as int, b.count as int);
        lemma_wadd_cong(wadd_spec(a.count, b.count), c.count, a.count + b.count, c.count as int);
        lemma_wadd_cong(b.count, c.count, b.count as int, c.count as int);
        lemma_wadd_cong(a.count, wadd_spec(b.count, c.count), a.count as int, b.count + c.count);
    }

    proof fn lemma_apply_id_map(v: SumCount) {
    }

    proof fn lemma_compose_apply(f: Morphism, g: Morphism, v: SumCount) {
        let s = v.sum;
        let c = v.count;
        match f {
            Morphism::Identity => {
            },
            Morphism::SetTo(x) => {
                assert(Self::apply_spec(g, v).count == c);
            },
            Morphism::AddConstant(a) => {
                match g {
                    Morphism::Identity => {
                    },
                    Morphism::SetTo(u) => {
                        lemma_case_add_set(a, u, c);
                    },
                    Morphism::AddConstant(b) => {
                        lemma_case_add_add(a, b, s, c);
                    },
                    Morphism::MultiplyBy(b) => {
                        lemma_case_mul_comm(a, c);
                    },
                    Morphism::Affine(b, d) => {
                        lemma_case_add_affine(a, b, d, s, c);
                    },
                }
            },
            Morphism::MultiplyBy(m) => {
                match g {
                    Morphism::Identity => {
                    },
                    Morphism::SetTo(u) => {
                        lemma_case_mul_set(u, m, c);
                    },
                    Morphism::AddConstant(b) => {
                        lemma_case_mul_add(m, b, s, c);
                    },
                    Morphism::MultiplyBy(b) => {
                        lemma_case_mul_mul(s, b, m);
                    },
                    Morphism::Affine(b, d) => {
                        lemma_case_mul_affine(m, b, d, s, c);
                    },
                }
            },
            Morphism::Affine(p, q) => {
                match g {
                    Morphism::Identity => {
                    },
                    Morphism::SetTo(u) => {
                        lemma_case_affine_set(p, q, u, c);
                    },
                    Morphism::AddConstant(b) => {
                        lemma_case_affine_add(p, q, b, s, c);
                    },
                    Morphism::MultiplyBy(b) => {
                        lemma_case_mul_mul(s, b, p);
                    },
                    Morphism::Affine(b, d) => {
                        lemma_case_affine_affine(p, q, b, d, s, c);
                    },
                }
            },
        }
    }

    proof fn lemma_apply_op(f: Morphism, a: SumCount, b: SumCount) {
        match f {
            Morphism::Identity => {
            },
            Morphism::SetTo(x) => {
                lemma_case_hom_set(x, a.count, b.count);
            },
            Morphism::AddConstant(x) => {
                lemma_case_hom_add(x, a.sum, a.count, b.sum, b.count);
            },
            Morphism::MultiplyBy(x) => {
                lemma_case_hom_mul(x, a.sum, b.sum);
            },
            Morphism::Affine(x, y) => {
                lemma_case_hom_affine(x, y, a.sum, a.count, b.sum, b.count);
            },
        }
    }

    fn id() -> SumCount {
        SumCount { sum: 0, count: 0 }
    }

    fn op(lhs: &SumCount, rhs: &SumCount) -> SumCount {
        SumCount { sum: wadd(lhs.sum, rhs.sum), count: wadd(lhs.count, rhs.count) }
    }

    fn apply(f: &Morphism, v: &SumCount) -> SumCount {
        match f {
            Morphism::Identity => *v,
            Morphism::SetTo(x) => SumCount { sum: wmul(*x, v.count), count: v.count },
            Morphism::AddConstant(x) => SumCount {
                sum: wadd(v.sum, wmul(*x, v.count)),
                count: v.count,
            },
            Morphism::MultiplyBy(x) => SumCount { sum: wmul(v.sum, *x), count: v.count },
            Morphism::Affine(x, y) => SumCount {
                sum: wadd(wmul(v.sum, *x), wmul(v.count, *y)),
                count: v.count,
            },
        }
    }

    fn id_map() -> Morphism {
        Morphism::Identity
    }

    fn compose(f: &Morphism, g: &Morphism) -> Morphism {
        match f {
            Morphism::Identity => *g,
            Morphism::SetTo(x) => match g {
                Morphism::Identity => *f,
                _ => Morphism::SetTo(*x),
            },
            Morphism::AddConstant(a) => match g {
                Morphism::Identity => *f,
                Morphism::SetTo(u) => Morphism::SetTo(wadd(*u, *a)),
                Morphism::AddConstant(b) => Morphism::AddConstant(wadd(*a, *b)),
                Morphism::MultiplyBy(b) => Morphism::Affine(*b, *a),
                Morphism::Affine(b, d) => Morphism::Affine(*b, wadd(*d, *a)),
            },
            Morphism::MultiplyBy(m) => match g {
                Morphism::Identity => *f,
                Morphism::SetTo(u) => Morphism::SetTo(wmul(*u, *m)),
                Morphism::AddConstant(b) => Morphism::Affine(*m, wmul(*b, *m)),
                Morphism::MultiplyBy(b) => Morphism::MultiplyBy(wmul(*b, *m)),
                Morphism::Affine(b, d) => Morphism::Affine(wmul(*b, *m), wmul(*d, *m)),
            },
            Morphism::Affine(p, q) => match g {
                Morphism::Identity => *f,
                Morphism::SetTo(u) => Morphism::SetTo(wadd(wmul(*u, *p), *q)),
                Morphism::AddConstant(b) => Morphism::Affine(*p, wadd(wmul(*b, *p), *q)),
                Morphism::MultiplyBy(b) => Morphism::Affine(wmul(*b, *p), *q),
                Morphism::Affine(b, d) => Morphism::Affine(
                    wmul(*b, *p),
                    wadd(wmul(*d, *p), *q),
                ),
            },
        }
    }
}

} // verus!

verus! {

impl Monoid for O {
    type Value = SumCount;

    open spec fn id_spec() -> SumCount {
        SumCount { sum: 0, count: 0 }
    }

    open spec fn op_spec(lhs: SumCount, rhs: SumCount) -> SumCount {
        SumCount { sum: wadd_spec(lhs.sum, rhs.sum), count: wadd_spec(lhs.count, rhs.count) }
    }

    proof fn lemma_identity(v: SumCount) {
        <O as MonoidWithMorphism>::lemma_identity(v);
    }

    proof fn lemma_associative(a: SumCount, b: SumCount, c: SumCount) {
        <O as MonoidWithMorphism>::lemma_associative(a, b, c);
    }

    fn id() -> SumCount {
        SumCount { sum: 0, count: 0 }
    }

    fn op(lhs: &SumCount, rhs: &SumCount) -> SumCount {
        SumCount { sum: wadd(lhs.sum, rhs.sum), count: wadd(lhs.count, rhs.count) }
    }
}

/// An affine map `x -> a * x + b` over wrapped 64-bit arithmetic, used
/// as the carrier of a non-commutative monoid under composition.
#[derive(Clone, Copy, Debug, PartialEq, Eq)]
pub struct AffineMap {
    /// The slope.
    pub a: i64,
    /// The offset.
    pub b: i64,
}

/// The monoid of affine maps under left-to-right composition: combining
/// `f` and `g` yields the map that applies `f` first and `g` second.
/// Composition is associative but not commutative.
pub struct AffineComposition;

/// Combining two affine maps composes them, second after first.
proof fn lemma_affine_compose_assoc(x: AffineMap, y: AffineMap, z: AffineMap)
    ensures
        wadd_spec(wmul_spec(wadd_spec(wmul_spec(x.b, y.a), y.b), z.a), z.b) == wadd_spec(
            wmul_spec(x.b, wmul_spec(y.a, z.a)),
            wadd_spec(wmul_spec(y.b, z.a), z.b),
        ),
{
    lemma_wmul_cong(x.b, y.a, x.b as int, y.a as int);
    lemma_wadd_cong(wmul_spec(x.b, y.a), y.b, x.b as int * y.a, y.b as int);
    lemma_wmul_cong(
        wadd_spec(wmul_spec(x.b, y.a), y.b),
        z.a,
        x.b as int * y.a + y.b,
        z.a as int,
    );
    lemma_wadd_cong(
        wmul_spec(wadd_spec(wmul_spec(x.b, y.a), y.b), z.a),
        z.b,
        (x.b as int * y.a + y.b) * z.a,
        z.b as int,
    );
    lemma_wmul_cong(y.a, z.a, y.a as int, z.a as int);
    lemma_wmul_cong(x.b, wmul_spec(y.a, z.a), x.b as int, y.a as int * z.a);
    lemma_wmul_cong(y.b, z.a, y.b as int, z.a as int);
    lemma_wadd_cong(wmul_spec(y.b, z.a), z.b, y.b as int * z.a, z.b as int);
    lemma_wadd_cong(
        wmul_spec(x.b, wmul_spec(y.a, z.a)),
        wadd_spec(wmul_spec(y.b, z.a), z.b),
        x.b as int * (y.a as int * z.a),
        y.b as int * z.a + z.b,
    );
    assert((x.b as int * y.a + y.b) * z.a + z.b == x.b as int * (y.a as int * z.a) + (y.b as int
        * z.a + z.b)) by (nonlinear_arith);
}

impl Monoid for AffineComposition {
    type Value = AffineMap;

    open spec fn id_spec() -> AffineMap {
        AffineMap { a: 1, b: 0 }
    }

    open spec fn op_spec(lhs: AffineMap, rhs: AffineMap) -> AffineMap {
        AffineMap {
            a: wmul_spec(lhs.a, rhs.a),
            b: wadd_spec(wmul_spec(lhs.b, rhs.a), rhs.b),
        }
    }

    proof fn lemma_identity(v: AffineMap) {
        lemma_wrap_in_range(v.a as int);
        lemma_wrap_in_range(v.b as int);
        lemma_wrap_val(1 * v.a as int);
        lemma_wrap_val(v.a as int * 1);
        lemma_wrap_val(v.b as int * 1);
        lemma_wrap_val(0 * v.a as int);
        lemma_wrap_val(wmul_spec(0, v.a) + v.b);
        lemma_wrap_val(wmul_spec(v.b, 1) as int + 0);
        lemma_wrap_in_range(0 * v.a as int);
        assert(wmul_spec(1, v.a) == v.a) by {
            lemma_wrap_in_range(1 * v.a as int);
        }
        assert(wmul_spec(v.a, 1) == v.a) by {
            lemma_wrap_in_range(v.a as int * 1);
        }
        assert(wmul_spec(v.b, 1) == v.b) by {
            lemma_wrap_in_range(v.b as int * 1);
        }
        assert(wmul_spec(0, v.a) == 0) by {
            lemma_wrap_in_range(0 * v.a as int);
        }
        assert(wadd_spec(0, v.b) == v.b) by {
            lemma_wrap_in_range(0 + v.b as int);
        }
        assert(wadd_spec(v.b, 0) == v.b) by {
            lemma_wrap_in_range(v.b as int + 0);
        }
    }

    proof fn lemma_associative(x: AffineMap, y: AffineMap, z: AffineMap) {
        lemma_case_mul_mul(x.a, y.a, z.a);
        lemma_affine_compose_assoc(x, y, z);
        assert(wmul_spec(wmul_spec(x.a, y.a), z.a) == wmul_spec(x.a, wmul_spec(y.a, z.a)));
    }

    fn id() -> AffineMap {
        AffineMap { a: 1, b: 0 }
    }

    fn op(lhs: &AffineMap, rhs: &AffineMap) -> AffineMap {
        AffineMap { a: wmul(lhs.a, rhs.a), b: wadd(wmul(lhs.b, rhs.a), rhs.b) }
    }
}

} // verus!

verus! {

/// Adding a constant to every element of a range shifts the folded sum
/// by the constant times the folded count and leaves the count alone:
/// folding the pointwise-transformed sequence equals shifting the fold
/// of the untouched sequence.
/// The inductive step of the fold-shift law, as one wrapped-arithmetic
/// identity.
proof fn lemma_shift_step(fs: i64, fc: i64, ls: i64, lc: i64, k: i64)
    ensures
        wadd_spec(wadd_spec(fs, wmul_spec(k, fc)), wadd_spec(ls, wmul_spec(k, lc))) == wadd_spec(
            wadd_spec(fs, ls),
            wmul_spec(k, wadd_spec(fc, lc)),
        ),
{
    lemma_wmul_cong(k, fc, k as int, fc as int);
    lemma_wadd_cong(fs, wmul_spec(k, fc), fs as int, k as int * fc);
    lemma_wmul_cong(k, lc, k as int, lc as int);
    lemma_wadd_cong(ls, wmul_spec(k, lc), ls as int, k as int * lc);
    lemma_wadd_cong(
        wadd_spec(fs, wmul_spec(k, fc)),
        wadd_spec(ls, wmul_spec(k, lc)),
        fs as int + k as int * fc,
        ls as int + k as int * lc,
    );
    lemma_wadd_cong(fs, ls, fs as int, ls as int);
    lemma_wadd_cong(fc, lc, fc as int, lc as int);
    lemma_wmul_cong(k, wadd_spec(fc, lc), k as int, fc as int + lc as int);
    lemma_wadd_cong(
        wadd_spec(fs, ls),
        wmul_spec(k, wadd_spec(fc, lc)),
        fs as int + ls,
        k as int * (fc as int + lc as int),
    );
    assert(fs as int + k as int * fc + (ls as int + k as int * lc) == fs as int + ls + k as int * (
    fc as int + lc as int)) by (nonlinear_arith);
}

/// Adding a constant to every element of a range shifts the folded sum
/// by the constant times the folded count and leaves the count alone:
/// folding the pointwise-transformed sequence equals shifting the fold
/// of the untouched sequence.
pub proof fn lemma_add_constant_shifts_fold(s: Seq<SumCount>, k: i64)
    ensures
        crate::segtree::fold_spec::<O>(
            s.map_values(|v: SumCount| <O as MonoidWithMorphism>::apply_spec(
                Morphism::AddConstant(k),
                v,
            )),
        ).count == crate::segtree::fold_spec::<O>(s).count,
        crate::segtree::fold_spec::<O>(
            s.map_values(|v: SumCount| <O as MonoidWithMorphism>::apply_spec(
                Morphism::AddConstant(k),
                v,
            )),
        ).sum == wadd_spec(
            crate::segtree::fold_spec::<O>(s).sum,
            wmul_spec(k, crate::segtree::fold_spec::<O>(s).count),
        ),
    decreases s.len(),
{
    let m = s.map_values(
        |v: SumCount| <O as MonoidWithMorphism>::apply_spec(Morphism::AddConstant(k), v),
    );
    if s.len() == 0 {
        lemma_wrap_in_range(0);
        lemma_wmul_cong(k, 0, k as int, 0);
        assert(k as int * 0 == 0) by (nonlinear_arith);
        lemma_wadd_cong(0, wmul_spec(k, 0), 0, 0);
        assert(wadd_spec(0, wmul_spec(k, 0)) == wrap_i64(0int));
        lemma_wrap_val(0);
    } else {
        lemma_add_constant_shifts_fold(s.drop_last(), k);
        assert(m.drop_last() =~= s.drop_last().map_values(
            |v: SumCount| <O as MonoidWithMorphism>::apply_spec(Morphism::AddConstant(k), v),
        ));
        assert(m.last() == <O as MonoidWithMorphism>::apply_spec(
            Morphism::AddConstant(k),
            s.last(),
        ));
        let fd = crate::segtree::fold_spec::<O>(s.drop_last());
        let l = s.last();
        lemma_shift_step(fd.sum, fd.count, l.sum, l.count, k);
        lemma_wadd_cong(fd.count, l.count, fd.count as int, l.count as int);
    }
}

} // verus!

verus! {

impl AbelianGroup for O {
    type Value = SumCount;

    open spec fn id_spec() -> SumCount {
        SumCount { sum: 0, count: 0 }
    }

    open spec fn op_spec(lhs: SumCount, rhs: SumCount) -> SumCount {
        SumCount { sum: wadd_spec(lhs.sum, rhs.sum), count: wadd_spec(lhs.count, rhs.count) }
    }

    open spec fn inv_spec(v: SumCount) -> SumCount {
        SumCount { sum: wmul_spec(v.sum, -1i64), count: wmul_spec(v.count, -1i64) }
    }

    proof fn lemma_identity(v: SumCount) {
        <O as MonoidWithMorphism>::lemma_identity(v);
    }

    proof fn lemma_associative(a: SumCount, b: SumCount, c: SumCount) {
        <O as MonoidWithMorphism>::lemma_associative(a, b, c);
    }

    proof fn lemma_commutative(a: SumCount, b: SumCount) {
        assert(a.sum + b.sum == b.sum + a.sum);
        assert(a.count + b.count == b.count + a.count);
    }

    proof fn lemma_inverse(v: SumCount) {
        lemma_wmul_cong(v.sum, -1i64, v.sum as int, -1);
        lemma_wadd_cong(v.sum, wmul_spec(v.sum, -1i64), v.sum as int, v.sum as int * -1);
        lemma_wmul_cong(v.count, -1i64, v.count as int, -1);
        lemma_wadd_cong(v.count, wmul_spec(v.count, -1i64), v.count as int, v.count as int * -1);
        assert(v.sum as int + v.sum as int * -1 == 0 && v.count as int + v.count as int * -1 == 0)
            by (nonlinear_arith);
        lemma_wrap_in_range(0);
        lemma_wrap_val(0int);
    }

    fn id() -> SumCount {
        SumCount { sum: 0, count: 0 }
    }

    fn op(lhs: &SumCount, rhs: &SumCount) -> SumCount {
        SumCount { sum: wadd(lhs.sum, rhs.sum), count: wadd(lhs.count, rhs.count) }
    }

    fn inv(value: &SumCount) -> SumCount {
        SumCount { sum: wmul(value.sum, -1i64), count: wmul(value.count, -1i64) }
    }
}

} // verus!
