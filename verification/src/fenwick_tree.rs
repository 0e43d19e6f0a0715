//! A Fenwick tree (binary indexed tree) over an abelian group: each
//! slot `k` holds the fold of the input over the interval
//! `(k + 1 - lowbit(k + 1), k + 1]`, and a range fold is the difference
//! of two prefix folds.

use vstd::prelude::*;

verus! {

/// An abelian group capability: an identity, an associative and
/// commutative combine operation, and inverses.  Implementers must
/// prove the group laws; the executable operations are pinned to their
/// specification counterparts.
pub trait AbelianGroup: Sized {
    /// The carrier of the group.
    type Value: Copy;

    /// The identity element.
    spec fn id_spec() -> Self::Value;

    /// The combine operation.
    spec fn op_spec(lhs: Self::Value, rhs: Self::Value) -> Self::Value;

    /// The inverse operation.
    spec fn inv_spec(v: Self::Value) -> Self::Value;

    /// The identity is a two-sided unit.
    proof fn lemma_identity(v: Self::Value)
        ensures
            Self::op_spec(Self::id_spec(), v) == v,
            Self::op_spec(v, Self::id_spec()) == v,
    ;

    /// The combine operation is associative.
    proof fn lemma_associative(a: Self::Value, b: Self::Value, c: Self::Value)
        ensures
            Self::op_spec(Self::op_spec(a, b), c) == Self::op_spec(a, Self::op_spec(b, c)),
    ;

    /// The combine operation is commutative.
    proof fn lemma_commutative(a: Self::Value, b: Self::Value)
        ensures
            Self::op_spec(a, b) == Self::op_spec(b, a),
    ;

    /// Combining a value with its inverse yields the identity.
    proof fn lemma_inverse(v: Self::Value)
        ensures
            Self::op_spec(v, Self::inv_spec(v)) == Self::id_spec(),
    ;

    /// Return the identity of the group.
    fn id() -> (r: Self::Value)
        ensures
            r == Self::id_spec(),
    ;

    /// Return the combination of `lhs` and `rhs`.
    fn op(lhs: &Self::Value, rhs: &Self::Value) -> (r: Self::Value)
        ensures
            r == Self::op_spec(*lhs, *rhs),
    ;

    /// Return the inverse of `value`.
    fn inv(value: &Self::Value) -> (r: Self::Value)
        ensures
            r == Self::inv_spec(*value),
    ;
}

/// The left-to-right fold of a sequence under the group, starting from
/// the identity.
pub open spec fn fold_group<G: AbelianGroup>(s: Seq<G::Value>) -> G::Value
    decreases s.len(),
{
    if s.len() == 0 {
        G::id_spec()
    } else {
        G::op_spec(fold_group::<G>(s.drop_last()), s.last())
    }
}

/// Folding a concatenation equals combining the folds of the parts.
pub proof fn lemma_fold_group_concat<G: AbelianGroup>(x: Seq<G::Value>, y: Seq<G::Value>)
    ensures
        fold_group::<G>(x + y) == G::op_spec(fold_group::<G>(x), fold_group::<G>(y)),
    decreases y.len(),
{
    if y.len() == 0 {
        assert(x + y =~= x);
        G::lemma_identity(fold_group::<G>(x));
    } else {
        lemma_fold_group_concat::<G>(x, y.drop_last());
        assert((x + y).drop_last() =~= x + y.drop_last());
        assert((x + y).last() == y.last());
        G::lemma_associative(fold_group::<G>(x), fold_group::<G>(y.drop_last()), y.last());
    }
}

/// The fold of the first `k` elements.
pub open spec fn prefix_fold<G: AbelianGroup>(s: Seq<G::Value>, k: int) -> G::Value {
    fold_group::<G>(s.subrange(0, k))
}

/// The largest power of two dividing `k`.
pub open spec fn lowbit(k: nat) -> nat
    decreases k,
{
    if k == 0 {
        0
    } else if k % 2 == 1 {
        1
    } else {
        2 * lowbit(k / 2)
    }
}

/// The lowest set bit of a positive number is between one and the
/// number itself.
pub proof fn lemma_lowbit_bounds(k: nat)
    requires
        k >= 1,
    ensures
        1 <= lowbit(k) <= k,
    decreases k,
{
    if k % 2 == 0 {
        lemma_lowbit_bounds(k / 2);
    }
}

/// Compute the largest power of two dividing `k`.
#[verifier::loop_isolation(false)]
fn lowbit_of(k: usize) -> (r: usize)
    requires
        k >= 1,
    ensures
        r == lowbit(k as nat),
        1 <= r <= k,
{
    let mut p: usize = 1;
    let mut m: usize = k;
    proof {
        lemma_lowbit_bounds(k as nat);
    }
    while m % 2 == 0
        invariant
            p >= 1,
            m >= 1,
            k as nat == p as nat * m as nat,
            lowbit(k as nat) == p as nat * lowbit(m as nat),
        decreases m,
    {
        let ghost p0 = p as nat;
        let ghost m0 = m as nat;
        proof {
            assert(lowbit(m0) == 2 * lowbit(m0 / 2));
            assert(p0 * 2 <= k) by (nonlinear_arith)
                requires
                    k as nat == p0 * m0,
                    m0 >= 2,
                    p0 >= 1,
            ;
            assert((p0 * 2) * (m0 / 2) == p0 * m0 && (p0 * 2) * lowbit(m0 / 2) == p0 * lowbit(m0))
                by (nonlinear_arith)
                requires
                    m0 % 2 == 0,
                    m0 == 2 * (m0 / 2),
                    lowbit(m0) == 2 * lowbit(m0 / 2),
            ;
        }
        m /= 2;
        p *= 2;
    }
    proof {
        assert(lowbit(m as nat) == 1);
        assert(p as nat * 1 == p as nat) by (nonlinear_arith);
        assert(p <= k) by (nonlinear_arith)
            requires
                k as nat == p as nat * m as nat,
                m >= 1,
                p >= 1,
        ;
    }
    p
}

/// The Fenwick tree over the group `G`.
///
/// The abstraction of a tree is the sequence it was built from; the
/// slots are derived data.
pub struct FenwickTree<G: AbelianGroup> {
    values: Vec<G::Value>,
    base: Ghost<Seq<G::Value>>,
}

impl<G: AbelianGroup> View for FenwickTree<G> {
    type V = Seq<G::Value>;

    closed spec fn view(&self) -> Seq<G::Value> {
        self.base@
    }
}

impl<G: AbelianGroup> FenwickTree<G> {
    /// Well-formedness: slot `k` folds the input over
    /// `(k + 1 - lowbit(k + 1), k + 1]`.
    pub closed spec fn wf(&self) -> bool {
        &&& self.values@.len() == self.base@.len()
        &&& forall|k: int|
            0 <= k < self.values@.len() ==> #[trigger] self.values@[k] == fold_group::<G>(
                self.base@.subrange(k + 1 - lowbit((k + 1) as nat), k + 1),
            )
    }

    /// Build a tree over `values`.
    #[verifier::loop_isolation(false)]
    pub fn new(values: &Vec<G::Value>) -> (t: Self)
        requires
            values@.len() < usize::MAX,
        ensures
            t.wf(),
            t@ == values@,
    {
        let n = values.len();
        let mut slots: Vec<G::Value> = Vec::new();
        let mut k: usize = 0;
        while k < n
            invariant
                k <= n,
                n == values@.len(),
                slots@.len() == k,
                forall|q: int|
                    0 <= q < k ==> #[trigger] slots@[q] == fold_group::<G>(
                        values@.subrange(q + 1 - lowbit((q + 1) as nat), q + 1),
                    ),
            decreases n - k,
        {
            let lb = lowbit_of(k + 1);
            let start = k + 1 - lb;
            let mut acc = G::id();
            let mut j = start;
            proof {
                assert(values@.subrange(start as int, start as int) =~= Seq::<G::Value>::empty());
            }
            while j < k + 1
                invariant
                    start <= j <= k + 1,
                    k < n,
                    n == values@.len(),
                    acc == fold_group::<G>(values@.subrange(start as int, j as int)),
                decreases k + 1 - j,
            {
                let ghost before = values@.subrange(start as int, j as int);
                acc = G::op(&acc, &values[j]);
                proof {
                    let after = values@.subrange(start as int, j as int + 1);
                    assert(after.drop_last() =~= before);
                    assert(after.last() == values@[j as int]);
                }
                j += 1;
            }
            slots.push(acc);
            k += 1;
        }
        FenwickTree { values: slots, base: Ghost(values@) }
    }

    /// Fold a range as the difference of two prefix folds: the result
    /// is exactly `op(prefix(r), inv(prefix(l)))`, which for `l <= r`
    /// is the fold of the elements of `[l, r)` by the group laws.
    #[verifier::loop_isolation(false)]
    pub fn fold(&self, l: usize, r: usize) -> (result: G::Value)
        requires
            self.wf(),
            l <= self@.len(),
            r <= self@.len(),
        ensures
            result == G::op_spec(
                prefix_fold::<G>(self@, r as int),
                G::inv_spec(prefix_fold::<G>(self@, l as int)),
            ),
            l <= r ==> result == fold_group::<G>(self@.subrange(l as int, r as int)),
    {
        let ghost base = self.base@;
        let mut left = G::id();
        let mut cur = l;
        proof {
            G::lemma_identity(prefix_fold::<G>(base, l as int));
        }
        while cur > 0
            invariant
                cur <= l,
                G::op_spec(prefix_fold::<G>(base, cur as int), left) == prefix_fold::<G>(
                    base,
                    l as int,
                ),
            decreases cur,
        {
            let lb = lowbit_of(cur);
            let seg = self.values[cur - 1];
            proof {
                let pc = cur as int;
                let ps = pc - lb;
                assert(base.subrange(0, pc) =~= base.subrange(0, ps) + base.subrange(ps, pc));
                lemma_fold_group_concat::<G>(base.subrange(0, ps), base.subrange(ps, pc));
                G::lemma_commutative(left, fold_group::<G>(base.subrange(ps, pc)));
                G::lemma_associative(
                    prefix_fold::<G>(base, ps),
                    fold_group::<G>(base.subrange(ps, pc)),
                    left,
                );
            }
            left = G::op(&left, &seg);
            cur -= lb;
        }
        let mut right = G::id();
        let mut cur = r;
        proof {
            G::lemma_identity(prefix_fold::<G>(base, r as int));
        }
        while cur > 0
            invariant
                cur <= r,
                G::op_spec(prefix_fold::<G>(base, cur as int), right) == prefix_fold::<G>(
                    base,
                    r as int,
                ),
            decreases cur,
        {
            let lb = lowbit_of(cur);
            let seg = self.values[cur - 1];
            proof {
                let pc = cur as int;
                let ps = pc - lb;
                assert(base.subrange(0, pc) =~= base.subrange(0, ps) + base.subrange(ps, pc));
                lemma_fold_group_concat::<G>(base.subrange(0, ps), base.subrange(ps, pc));
                G::lemma_associative(
                    prefix_fold::<G>(base, ps),
                    fold_group::<G>(base.subrange(ps, pc)),
                    right,
                );
            }
            right = G::op(&seg, &right);
            cur -= lb;
        }
        proof {
            assert(base.subrange(0, 0) =~= Seq::<G::Value>::empty());
            G::lemma_identity(left);
            G::lemma_identity(right);
        }
        let result = G::op(&right, &G::inv(&left));
        proof {
            if l <= r {
                let a = prefix_fold::<G>(base, l as int);
                let b = fold_group::<G>(base.subrange(l as int, r as int));
                assert(base.subrange(0, r as int) =~= base.subrange(0, l as int) + base.subrange(
                    l as int,
                    r as int,
                ));
                lemma_fold_group_concat::<G>(base.subrange(0, l as int), base.subrange(
                    l as int,
                    r as int,
                ));
                G::lemma_commutative(a, b);
                G::lemma_associative(b, a, G::inv_spec(a));
                G::lemma_inverse(a);
                G::lemma_identity(b);
            }
        }
        result
    }
}

} // verus!
