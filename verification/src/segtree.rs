//! A point-update / range-fold segment tree over an arbitrary monoid.
//!
//! The tree is an implicit complete binary tree kept in one buffer of
//! length `2 * N`: index 0 is unused, index 1 is the root, the children of
//! index `i` are `2 * i` and `2 * i + 1`, and the leaves sit at
//! `[N, 2 * N)` in input order.

use vstd::prelude::*;

verus! {

/// The error kinds shared by the segment-tree family.
#[derive(Clone, Copy, Debug, PartialEq, Eq)]
pub enum SegtreeError {
    /// Construction from an empty sequence was attempted.
    EmptyConstruction,
    /// A range `[l, r)` with `l > r` or `r > N` was given.
    InvalidRange,
    /// A single-element accessor was given an index `>= N`.
    IndexOutOfRange,
}

/// A monoid capability: an identity element and an associative combine
/// operation over a value type.  Commutativity is not assumed.
///
/// Implementers must prove the monoid laws; the executable operations are
/// pinned to their specification counterparts.
pub trait Monoid: Sized {
    /// The carrier of the monoid.
    type Value: Copy;

    /// The identity element, as a mathematical value.
    spec fn id_spec() -> Self::Value;

    /// The combine operation, as a mathematical function.
    spec fn op_spec(lhs: Self::Value, rhs: Self::Value) -> Self::Value;

    /// The identity is a two-sided unit.
    proof fn lemma_identity(v: Self::Value)
        ensures
            Self::op_spec(Self::id_spec(), v) == v,
            Self::op_spec(v, Self::id_spec()) == v,
    ;

    /// The combine operation is associative.
    proof fn lemma_associative(a: Self::Value, b: Self::Value, c: Self::Value)
        ensures
            Self::op_spec(Self::op_spec(a, b), c) == Self::op_spec(a, Self::op_spec(b, c)),
    ;

    /// Return the identity of the monoid.
    fn id() -> (r: Self::Value)
        ensures
            r == Self::id_spec(),
    ;

    /// Return the result of combining `lhs` and `rhs`, in that order.
    fn op(lhs: &Self::Value, rhs: &Self::Value) -> (r: Self::Value)
        ensures
            r == Self::op_spec(*lhs, *rhs),
    ;
}

/// The left-to-right fold of a sequence under the monoid `M`, starting
/// from the identity.
pub open spec fn fold_spec<M: Monoid>(s: Seq<M::Value>) -> M::Value
    decreases s.len(),
{
    if s.len() == 0 {
        M::id_spec()
    } else {
        M::op_spec(fold_spec::<M>(s.drop_last()), s.last())
    }
}

/// Folding a one-element sequence yields that element.
pub proof fn lemma_fold_singleton<M: Monoid>(v: M::Value)
    ensures
        fold_spec::<M>(seq![v]) == v,
{
    assert(seq![v].drop_last() =~= Seq::<M::Value>::empty());
    assert(fold_spec::<M>(Seq::<M::Value>::empty()) == M::id_spec());
    assert(fold_spec::<M>(seq![v]) == M::op_spec(M::id_spec(), seq![v].last()));
    M::lemma_identity(v);
}

/// Folding a concatenation equals combining the folds of the parts.
pub proof fn lemma_fold_concat<M: Monoid>(x: Seq<M::Value>, y: Seq<M::Value>)
    ensures
        fold_spec::<M>(x + y) == M::op_spec(fold_spec::<M>(x), fold_spec::<M>(y)),
    decreases y.len(),
{
    if y.len() == 0 {
        assert(x + y =~= x);
        M::lemma_identity(fold_spec::<M>(x));
    } else {
        lemma_fold_concat::<M>(x, y.drop_last());
        assert((x + y).drop_last() =~= x + y.drop_last());
        assert((x + y).last() == y.last());
        M::lemma_associative(
            fold_spec::<M>(x),
            fold_spec::<M>(y.drop_last()),
            y.last(),
        );
    }
}

/// The sequence of leaf values below node `i` of a buffer of `2 * n`
/// slots whose leaves occupy `[n, 2 * n)`.
pub open spec fn node_leaves<M: Monoid>(buf: Seq<M::Value>, n: int, i: int) -> Seq<M::Value>
    decreases 2 * n - i,
{
    if i >= n || i < 1 {
        seq![buf[i]]
    } else {
        node_leaves::<M>(buf, n, 2 * i) + node_leaves::<M>(buf, n, 2 * i + 1)
    }
}

/// The concatenation of the leaf sequences below the nodes `l`, `l + 1`,
/// ..., `r - 1`.
pub open spec fn range_leaves<M: Monoid>(buf: Seq<M::Value>, n: int, l: int, r: int) -> Seq<M::Value>
    decreases r - l,
{
    if l >= r {
        Seq::empty()
    } else {
        node_leaves::<M>(buf, n, l) + range_leaves::<M>(buf, n, l + 1, r)
    }
}

/// A node range may also be consumed from its right end.
pub proof fn lemma_range_leaves_last<M: Monoid>(buf: Seq<M::Value>, n: int, l: int, r: int)
    requires
        l < r,
    ensures
        range_leaves::<M>(buf, n, l, r) == range_leaves::<M>(buf, n, l, r - 1) + node_leaves::<M>(
            buf,
            n,
            r - 1,
        ),
    decreases r - l,
{
    assert(range_leaves::<M>(buf, n, l, r) == node_leaves::<M>(buf, n, l) + range_leaves::<M>(
        buf,
        n,
        l + 1,
        r,
    ));
    if l == r - 1 {
        assert(range_leaves::<M>(buf, n, l + 1, r) =~= Seq::<M::Value>::empty());
        assert(range_leaves::<M>(buf, n, l, r - 1) =~= Seq::<M::Value>::empty());
        assert(range_leaves::<M>(buf, n, l, r) =~= range_leaves::<M>(buf, n, l, r - 1)
            + node_leaves::<M>(buf, n, r - 1));
    } else {
        lemma_range_leaves_last::<M>(buf, n, l + 1, r);
        assert(range_leaves::<M>(buf, n, l, r - 1) == node_leaves::<M>(buf, n, l)
            + range_leaves::<M>(buf, n, l + 1, r - 1));
        assert(range_leaves::<M>(buf, n, l, r) =~= range_leaves::<M>(buf, n, l, r - 1)
            + node_leaves::<M>(buf, n, r - 1));
    }
}

/// Replacing a range of nodes, all at one level, by their parents keeps
/// the concatenated leaf sequence: the parents' children are exactly the
/// range.
pub proof fn lemma_range_leaves_halve<M: Monoid>(buf: Seq<M::Value>, n: int, l: int, r: int)
    requires
        n >= 1,
        2 <= l,
        l <= r,
        r <= 2 * n,
        l % 2 == 0,
        r % 2 == 0,
    ensures
        range_leaves::<M>(buf, n, l / 2, r / 2) == range_leaves::<M>(buf, n, l, r),
    decreases r - l,
{
    if l == r {
        assert(range_leaves::<M>(buf, n, l / 2, r / 2) =~= range_leaves::<M>(buf, n, l, r));
    } else {
        lemma_range_leaves_halve::<M>(buf, n, l + 2, r);
        assert(l / 2 < n);
        assert(node_leaves::<M>(buf, n, l / 2) == node_leaves::<M>(buf, n, l)
            + node_leaves::<M>(buf, n, l + 1));
        assert(range_leaves::<M>(buf, n, l + 1, r) == node_leaves::<M>(buf, n, l + 1)
            + range_leaves::<M>(buf, n, l + 2, r));
        assert(range_leaves::<M>(buf, n, l / 2, r / 2) =~= range_leaves::<M>(buf, n, l, r));
    }
}

/// Over the leaf band, a node range is just the corresponding buffer
/// segment.
pub proof fn lemma_range_leaves_band<M: Monoid>(buf: Seq<M::Value>, n: int, a: int, b: int)
    requires
        n >= 1,
        0 <= a,
        a <= b,
        b <= n,
        buf.len() == 2 * n,
    ensures
        range_leaves::<M>(buf, n, n + a, n + b) == buf.subrange(n + a, n + b),
    decreases b - a,
{
    if a == b {
        assert(range_leaves::<M>(buf, n, n + a, n + b) =~= buf.subrange(n + a, n + b));
    } else {
        lemma_range_leaves_band::<M>(buf, n, a + 1, b);
        assert(node_leaves::<M>(buf, n, n + a) =~= seq![buf[n + a]]);
        assert(range_leaves::<M>(buf, n, n + a, n + b) =~= buf.subrange(n + a, n + b));
    }
}

/// In a buffer where every internal node combines its children, each
/// node holds the fold of the leaves below it.
pub proof fn lemma_node_value<M: Monoid>(buf: Seq<M::Value>, n: int, i: int)
    requires
        n >= 1,
        buf.len() == 2 * n,
        1 <= i < 2 * n,
        forall|k: int|
            1 <= k < n ==> #[trigger] buf[k] == M::op_spec(buf[2 * k], buf[2 * k + 1]),
    ensures
        buf[i] == fold_spec::<M>(node_leaves::<M>(buf, n, i)),
    decreases 2 * n - i,
{
    if i >= n {
        lemma_fold_singleton::<M>(buf[i]);
    } else {
        lemma_node_value::<M>(buf, n, 2 * i);
        lemma_node_value::<M>(buf, n, 2 * i + 1);
        lemma_fold_concat::<M>(
            node_leaves::<M>(buf, n, 2 * i),
            node_leaves::<M>(buf, n, 2 * i + 1),
        );
    }
}

/// `m` lies on the upward path from `j` to the root (including `j`
/// itself).
pub open spec fn is_ancestor(m: int, j: int) -> bool
    decreases j,
{
    if j < 1 {
        false
    } else if m == j {
        true
    } else {
        is_ancestor(m, j / 2)
    }
}

/// An ancestor of a node's parent is an ancestor of the node.
pub proof fn lemma_ancestor_step(k: int, j: int)
    requires
        k >= 1,
        j >= 1,
        is_ancestor(2 * k, j) || is_ancestor(2 * k + 1, j),
    ensures
        is_ancestor(k, j),
    decreases j,
{
    if 2 * k == j || 2 * k + 1 == j {
        assert(j / 2 == k);
        assert(is_ancestor(k, k));
        assert(k < j);
        assert(is_ancestor(k, j));
    } else if j == 1 {
        assert(!is_ancestor(2 * k, 0));
        assert(!is_ancestor(2 * k + 1, 0));
        assert(!is_ancestor(2 * k, 1));
        assert(!is_ancestor(2 * k + 1, 1));
    } else {
        assert(is_ancestor(2 * k, j) ==> is_ancestor(2 * k, j / 2));
        assert(is_ancestor(2 * k + 1, j) ==> is_ancestor(2 * k + 1, j / 2));
        lemma_ancestor_step(k, j / 2);
        assert(k != j ==> is_ancestor(k, j));
        assert(is_ancestor(k, j));
    }
}

/// The fixed-size array-backed segment tree over the monoid `M`.
///
/// The abstraction of a tree is the sequence of its `N` leaf values, in
/// input order; every contract below speaks of that sequence.
pub struct Segtree<M: Monoid> {
    values: Vec<M::Value>,
}

impl<M: Monoid> View for Segtree<M> {
    type V = Seq<M::Value>;

    closed spec fn view(&self) -> Seq<M::Value> {
        self.values@.subrange(self.values@.len() as int / 2, self.values@.len() as int)
    }
}

impl<M: Monoid> Segtree<M> {
    /// The number of leaves.
    pub closed spec fn spec_n(&self) -> int {
        self.values@.len() as int / 2
    }

    /// Well-formedness: the buffer has length `2 * N` with `N >= 1`, and
    /// every internal node holds the combination of its two children.
    pub closed spec fn wf(&self) -> bool {
        &&& self.values@.len() >= 2
        &&& self.values@.len() % 2 == 0
        &&& forall|k: int|
            1 <= k < self.spec_n() ==> #[trigger] self.values@[k] == M::op_spec(
                self.values@[2 * k],
                self.values@[2 * k + 1],
            )
    }

    /// The number of leaves, as seen through the abstraction.
    pub proof fn lemma_view_len(&self)
        requires
            self.wf(),
        ensures
            self@.len() == self.spec_n(),
            self@.len() >= 1,
    {
    }

    /// Build a tree whose leaves are `values`, bottom-up.
    ///
    /// Fails with `EmptyConstruction` exactly when `values` is empty.
    #[verifier::loop_isolation(false)]
    pub fn new(values: &Vec<M::Value>) -> (result: Result<Self, SegtreeError>)
        requires
            values@.len() * 2 <= usize::MAX,
        ensures
            match result {
                Ok(t) => t.wf() && t@ == values@ && values@.len() > 0,
                Err(e) => e == SegtreeError::EmptyConstruction && values@.len() == 0,
            },
    {
        let n = values.len();
        if n == 0 {
            return Err(SegtreeError::EmptyConstruction);
        }
        let mut buf: Vec<M::Value> = Vec::new();
        let mut i: usize = 0;
        while i < n
            invariant
                i <= n,
                buf@.len() == i,
                n == values@.len(),
                forall|k: int| 0 <= k < i ==> buf@[k] == M::id_spec(),
            decreases n - i,
        {
            buf.push(M::id());
            i += 1;
        }
        let mut i: usize = 0;
        while i < n
            invariant
                i <= n,
                n == values@.len(),
                buf@.len() == n + i,
                forall|k: int| n <= k < n + i ==> buf@[k] == values@[k - n],
            decreases n - i,
        {
            buf.push(values[i]);
            i += 1;
        }
        let mut i: usize = n - 1;
        while i >= 1
            invariant
                0 <= i <= n - 1,
                n == values@.len(),
                n >= 1,
                buf@.len() == 2 * n,
                forall|k: int| n <= k < 2 * n ==> buf@[k] == values@[k - n],
                forall|k: int|
                    i < k < n ==> #[trigger] buf@[k] == M::op_spec(buf@[2 * k], buf@[2 * k + 1]),
            decreases i,
        {
            let combined = M::op(&buf[2 * i], &buf[2 * i + 1]);
            buf[i] = combined;
            i -= 1;
        }
        let tree = Segtree { values: buf };
        proof {
            assert(tree@ =~= values@);
        }
        Ok(tree)
    }

    /// Fold the leaves of `[l, r)` left to right under the monoid.
    ///
    /// `l == r` yields the identity for any `l`; otherwise the range must
    /// satisfy `l < r <= N`, else `InvalidRange` is returned.
    #[verifier::loop_isolation(false)]
    #[verifier::rlimit(60)]
    pub fn fold(&self, l: usize, r: usize) -> (result: Result<M::Value, SegtreeError>)
        requires
            self.wf(),
        ensures
            match result {
                Ok(v) => if l == r {
                    v == M::id_spec()
                } else {
                    l < r && r <= self@.len() && v == fold_spec::<M>(
                        self@.subrange(l as int, r as int),
                    )
                },
                Err(e) => e == SegtreeError::InvalidRange && l != r && (l > r || r > self@.len()),
            },
    {
        if l == r {
            return Ok(M::id());
        }
        let n = self.values.len() / 2;
        proof {
            self.lemma_view_len();
        }
        if l > r || r > n {
            return Err(SegtreeError::InvalidRange);
        }
        let ghost buf = self.values@;
        proof {
            lemma_range_leaves_band::<M>(buf, n as int, l as int, r as int);
            assert(buf.subrange(n + l, n + r) =~= self@.subrange(l as int, r as int));
        }
        let mut a = n + l;
        let mut b = n + r;
        let mut left = M::id();
        let mut right = M::id();
        let ghost mut la: Seq<M::Value> = Seq::empty();
        let ghost mut ra: Seq<M::Value> = Seq::empty();
        proof {
            assert(la + range_leaves::<M>(buf, n as int, a as int, b as int) + ra
                =~= range_leaves::<M>(buf, n as int, a as int, b as int));
        }
        while a < b
            invariant
                self.wf(),
                buf == self.values@,
                n == self.spec_n(),
                1 <= a,
                a <= b,
                b <= 2 * n,
                left == fold_spec::<M>(la),
                right == fold_spec::<M>(ra),
                la + range_leaves::<M>(buf, n as int, a as int, b as int) + ra == self@.subrange(
                    l as int,
                    r as int,
                ),
            decreases b - a,
        {
            let ghost a0 = a as int;
            let ghost b0 = b as int;
            if a % 2 == 1 {
                proof {
                    lemma_node_value::<M>(buf, n as int, a as int);
                    lemma_fold_concat::<M>(la, node_leaves::<M>(buf, n as int, a as int));
                }
                left = M::op(&left, &self.values[a]);
                proof {
                    la = la + node_leaves::<M>(buf, n as int, a as int);
                    assert(la + range_leaves::<M>(buf, n as int, a as int + 1, b as int) + ra
                        =~= self@.subrange(l as int, r as int));
                }
                a += 1;
            }
            if b % 2 == 1 {
                b -= 1;
                proof {
                    lemma_node_value::<M>(buf, n as int, b as int);
                    lemma_range_leaves_last::<M>(buf, n as int, a as int, b as int + 1);
                    lemma_fold_concat::<M>(node_leaves::<M>(buf, n as int, b as int), ra);
                }
                right = M::op(&self.values[b], &right);
                proof {
                    ra = node_leaves::<M>(buf, n as int, b as int) + ra;
                    assert(la + range_leaves::<M>(buf, n as int, a as int, b as int) + ra
                        =~= self@.subrange(l as int, r as int));
                }
            }
            proof {
                assert(a % 2 == 0);
                assert(b % 2 == 0);
                if a < b {
                    lemma_range_leaves_halve::<M>(buf, n as int, a as int, b as int);
                } else {
                    assert(range_leaves::<M>(buf, n as int, a as int, b as int)
                        =~= Seq::<M::Value>::empty());
                    assert(range_leaves::<M>(buf, n as int, a as int / 2, b as int / 2)
                        =~= Seq::<M::Value>::empty());
                }
            }
            a /= 2;
            b /= 2;
        }
        proof {
            assert(range_leaves::<M>(buf, n as int, a as int, b as int)
                =~= Seq::<M::Value>::empty());
            assert(la + ra =~= la + range_leaves::<M>(buf, n as int, a as int, b as int) + ra);
            lemma_fold_concat::<M>(la, ra);
        }
        Ok(M::op(&left, &right))
    }

    /// Overwrite leaf `i` with `v` and recompute every ancestor.
    ///
    /// Fails with `IndexOutOfRange` exactly when `i >= N`; on success the
    /// leaf sequence is the old one with position `i` replaced by `v`.
    #[verifier::loop_isolation(false)]
    pub fn update_at(&mut self, i: usize, v: M::Value) -> (result: Result<(), SegtreeError>)
        requires
            old(self).wf(),
        ensures
            final(self).wf(),
            match result {
                Ok(()) => i < old(self)@.len() && final(self)@ == old(self)@.update(i as int, v),
                Err(e) => e == SegtreeError::IndexOutOfRange && i >= old(self)@.len()
                    && final(self)@ == old(self)@,
            },
    {
        let n = self.values.len() / 2;
        proof {
            self.lemma_view_len();
        }
        if i >= n {
            return Err(SegtreeError::IndexOutOfRange);
        }
        let ghost leaf = (i + n) as int;
        self.values[i + n] = v;
        proof {
            assert(self@ =~= old(self)@.update(i as int, v));
        }
        let mut j = (i + n) / 2;
        proof {
            assert(is_ancestor(leaf, leaf));
            assert(j as int == leaf / 2);
            if j >= 1 {
                lemma_ancestor_chain(leaf, leaf);
            }
            assert forall|k: int|
                1 <= k < n && !(j >= 1 && is_ancestor(k, j as int)) implies #[trigger] self.values@[k]
                == M::op_spec(self.values@[2 * k], self.values@[2 * k + 1]) by {
                if 2 * k == leaf || 2 * k + 1 == leaf {
                    assert(k == leaf / 2);
                    assert(is_ancestor(k, k));
                }
            }
        }
        while j >= 1
            invariant
                self.values@.len() == old(self).values@.len(),
                self.values@.len() == 2 * n,
                n >= 1,
                n == old(self).spec_n(),
                j < n,
                j >= 1 ==> is_ancestor(j as int, leaf),
                n <= leaf < 2 * n,
                self@ == old(self)@.update(i as int, v),
                forall|k: int|
                    1 <= k < n && !(j >= 1 && is_ancestor(k, j as int)) ==> #[trigger] self.values@[k]
                        == M::op_spec(self.values@[2 * k], self.values@[2 * k + 1]),
            decreases j,
        {
            let combined = M::op(&self.values[2 * j], &self.values[2 * j + 1]);
            self.values[j] = combined;
            let ghost jj = j as int;
            proof {
                assert(self@ =~= old(self)@.update(i as int, v));
                if jj / 2 >= 1 {
                    assert(is_ancestor(jj / 2, leaf)) by {
                        lemma_ancestor_chain(jj, leaf);
                    }
                }
                assert forall|k: int|
                    1 <= k < n && !(jj / 2 >= 1 && is_ancestor(k, jj / 2)) implies M::op_spec(
                    self.values@[2 * k],
                    self.values@[2 * k + 1],
                ) == #[trigger] self.values@[k] by {
                    if k == jj {
                    } else {
                        if 2 * k == jj || 2 * k + 1 == jj {
                            assert(k == jj / 2);
                            assert(is_ancestor(k, k));
                        }
                        if is_ancestor(k, jj) {
                            assert(k != jj);
                            assert(is_ancestor(k, jj / 2));
                        }
                    }
                }
            }
            j /= 2;
        }
        proof {
            assert(self.wf());
        }
        Ok(())
    }

    /// Read leaf `i` directly; fails with `IndexOutOfRange` exactly when
    /// `i >= N`.
    pub fn get_at(&self, i: usize) -> (result: Result<M::Value, SegtreeError>)
        requires
            self.wf(),
        ensures
            match result {
                Ok(v) => i < self@.len() && v == self@[i as int],
                Err(e) => e == SegtreeError::IndexOutOfRange && i >= self@.len(),
            },
    {
        let n = self.values.len() / 2;
        proof {
            self.lemma_view_len();
        }
        if i >= n {
            return Err(SegtreeError::IndexOutOfRange);
        }
        Ok(self.values[i + n])
    }

    /// Copy out all leaves, in order.
    #[verifier::loop_isolation(false)]
    pub fn collect(&self) -> (r: Vec<M::Value>)
        requires
            self.wf(),
        ensures
            r@ == self@,
    {
        let n = self.values.len() / 2;
        proof {
            self.lemma_view_len();
        }
        let mut out: Vec<M::Value> = Vec::new();
        let mut i: usize = 0;
        while i < n
            invariant
                i <= n,
                n == self.spec_n(),
                self.values@.len() == 2 * n,
                out@.len() == i,
                forall|k: int| 0 <= k < i ==> out@[k] == self@[k],
            decreases n - i,
        {
            out.push(self.values[i + n]);
            i += 1;
        }
        proof {
            assert(out@ =~= self@);
        }
        out
    }
}

/// An ancestor lies between the root and its descendant.
pub proof fn lemma_ancestor_le(m: int, j: int)
    requires
        is_ancestor(m, j),
    ensures
        1 <= m <= j,
    decreases j,
{
    if j >= 1 && m != j {
        lemma_ancestor_le(m, j / 2);
    }
}

/// Two ancestors of one node are comparable: the smaller is an ancestor
/// of the larger.
pub proof fn lemma_ancestor_compare(k1: int, k2: int, j: int)
    requires
        is_ancestor(k1, j),
        is_ancestor(k2, j),
        k1 <= k2,
    ensures
        is_ancestor(k1, k2),
    decreases j,
{
    if k2 == j {
    } else {
        lemma_ancestor_le(k1, j);
        lemma_ancestor_le(k2, j);
        if k1 == j {
            assert(k1 <= k2 && k2 <= j);
        } else {
            lemma_ancestor_compare(k1, k2, j / 2);
        }
    }
}

/// On the path from a node to the root, each node's parent is the next
/// path node.
pub proof fn lemma_ancestor_chain(m: int, j: int)
    requires
        m >= 1,
        is_ancestor(m, j),
    ensures
        m / 2 >= 1 ==> is_ancestor(m / 2, j),
    decreases j,
{
    if j >= 1 {
        if m == j {
            if m / 2 >= 1 {
                assert(is_ancestor(m / 2, j / 2));
            }
        } else {
            lemma_ancestor_chain(m, j / 2);
        }
    }
}

} // verus!
