//! A lazy-propagation segment tree: the plain tree's indexing scheme plus
//! a second buffer holding one pending endomorphism per node.
//!
//! A node is *clean* when its pending transform acts as the identity and
//! *dirty* otherwise; a dirty node's transform has not yet been pushed to
//! its children.  The abstraction of the tree is the sequence of fully
//! resolved leaf values: each leaf under the composition of every pending
//! transform on its path to the root.

use vstd::prelude::*;
use crate::segtree::SegtreeError;
use crate::segtree::is_ancestor;
use crate::segtree::lemma_ancestor_le;
use crate::segtree::lemma_ancestor_compare;
use crate::segtree::lemma_ancestor_chain;
use crate::segtree::lemma_ancestor_step;

verus! {

/// A monoid together with a family of endomorphisms acting on it.
///
/// `compose_spec(f, g)` denotes the transform that applies `g` first and
/// `f` second; this ordering is load-bearing and generally
/// non-commutative.  Implementers must prove the monoid laws, that the
/// identity transform is neutral, the composition law, and that every
/// transform acts homomorphically on `combine` — the facts the lazy
/// tree's correctness argument rests on.
pub trait MonoidWithMorphism: Sized {
    /// The carrier of the monoid.
    type Value: Copy;

    /// The type of transforms of the carrier.
    type Morphism: Copy;

    /// The identity element of the monoid.
    spec fn id_spec() -> Self::Value;

    /// The combine operation of the monoid.
    spec fn op_spec(lhs: Self::Value, rhs: Self::Value) -> Self::Value;

    /// The action of a transform on a value.
    spec fn apply_spec(f: Self::Morphism, v: Self::Value) -> Self::Value;

    /// The identity transform.
    spec fn id_map_spec() -> Self::Morphism;

    /// The composition of two transforms: `g`'s effect first, then `f`'s.
    spec fn compose_spec(f: Self::Morphism, g: Self::Morphism) -> Self::Morphism;

    /// The identity is a two-sided unit of `op_spec`.
    proof fn lemma_identity(v: Self::Value)
        ensures
            Self::op_spec(Self::id_spec(), v) == v,
            Self::op_spec(v, Self::id_spec()) == v,
    ;

    /// `op_spec` is associative.
    proof fn lemma_associative(a: Self::Value, b: Self::Value, c: Self::Value)
        ensures
            Self::op_spec(Self::op_spec(a, b), c) == Self::op_spec(a, Self::op_spec(b, c)),
    ;

    /// The identity transform leaves every value unchanged.
    proof fn lemma_apply_id_map(v: Self::Value)
        ensures
            Self::apply_spec(Self::id_map_spec(), v) == v,
    ;

    /// Applying a composition applies the second operand first.
    proof fn lemma_compose_apply(f: Self::Morphism, g: Self::Morphism, v: Self::Value)
        ensures
            Self::apply_spec(Self::compose_spec(f, g), v) == Self::apply_spec(
                f,
                Self::apply_spec(g, v),
            ),
    ;

    /// Transforms act homomorphically on the combine operation.
    proof fn lemma_apply_op(f: Self::Morphism, a: Self::Value, b: Self::Value)
        ensures
            Self::apply_spec(f, Self::op_spec(a, b)) == Self::op_spec(
                Self::apply_spec(f, a),
                Self::apply_spec(f, b),
            ),
    ;

    /// Return the identity of the monoid.
    fn id() -> (r: Self::Value)
        ensures
            r == Self::id_spec(),
    ;

    /// Return the combination of `lhs` and `rhs`, in that order.
    fn op(lhs: &Self::Value, rhs: &Self::Value) -> (r: Self::Value)
        ensures
            r == Self::op_spec(*lhs, *rhs),
    ;

    /// Apply the transform `f` to `v`.
    fn apply(f: &Self::Morphism, v: &Self::Value) -> (r: Self::Value)
        ensures
            r == Self::apply_spec(*f, *v),
    ;

    /// Return the identity transform.
    fn id_map() -> (r: Self::Morphism)
        ensures
            r == Self::id_map_spec(),
    ;

    /// Return the composition of `f` after `g`.
    fn compose(f: &Self::Morphism, g: &Self::Morphism) -> (r: Self::Morphism)
        ensures
            r == Self::compose_spec(*f, *g),
    ;
}

/// Composition of transforms is associative in its action: however a
/// chain of three transforms is parenthesised when composed, applying
/// the result to any value gives the same answer.
pub proof fn lemma_compose_associative<M: MonoidWithMorphism>(
    f1: M::Morphism,
    f2: M::Morphism,
    f3: M::Morphism,
    v: M::Value,
)
    ensures
        M::apply_spec(M::compose_spec(f1, M::compose_spec(f2, f3)), v) == M::apply_spec(
            M::compose_spec(M::compose_spec(f1, f2), f3),
            v,
        ),
{
    M::lemma_compose_apply(f1, M::compose_spec(f2, f3), v);
    M::lemma_compose_apply(f2, f3, v);
    M::lemma_compose_apply(M::compose_spec(f1, f2), f3, v);
    M::lemma_compose_apply(f1, f2, M::apply_spec(f3, v));
}

/// The transform `f` acts as the identity on every value.
pub open spec fn acts_as_id<M: MonoidWithMorphism>(f: M::Morphism) -> bool {
    forall|v: M::Value| #[trigger] M::apply_spec(f, v) == v
}

/// Resolve a value sitting at node `i`: apply `i`'s pending transform,
/// then the parent's, and so on up to the root.
pub open spec fn resolve<M: MonoidWithMorphism>(ms: Seq<M::Morphism>, i: int, v: M::Value) -> M::Value
    decreases i,
{
    if i < 1 {
        v
    } else {
        resolve::<M>(ms, i / 2, M::apply_spec(ms[i], v))
    }
}

/// Resolve a value from node `j` upward, stopping just below node `top`.
pub open spec fn resolve_below<M: MonoidWithMorphism>(
    ms: Seq<M::Morphism>,
    j: int,
    top: int,
    v: M::Value,
) -> M::Value
    decreases j,
{
    if j < 1 || j <= top {
        v
    } else {
        resolve_below::<M>(ms, j / 2, top, M::apply_spec(ms[j], v))
    }
}

/// Resolution only reads the transforms on the path to the root.
pub proof fn lemma_resolve_frame<M: MonoidWithMorphism>(
    ms1: Seq<M::Morphism>,
    ms2: Seq<M::Morphism>,
    i: int,
    v: M::Value,
)
    requires
        forall|k: int| #[trigger] is_ancestor(k, i) ==> ms1[k] == ms2[k],
    ensures
        resolve::<M>(ms1, i, v) == resolve::<M>(ms2, i, v),
    decreases i,
{
    if i >= 1 {
        assert(is_ancestor(i, i));
        assert forall|k: int| #[trigger] is_ancestor(k, i / 2) implies ms1[k] == ms2[k] by {
            lemma_ancestor_le(k, i / 2);
            assert(is_ancestor(k, i));
        }
        lemma_resolve_frame::<M>(ms1, ms2, i / 2, M::apply_spec(ms1[i], v));
    }
}

/// Partial resolution only reads the transforms strictly between the two
/// nodes.
pub proof fn lemma_resolve_below_frame<M: MonoidWithMorphism>(
    ms1: Seq<M::Morphism>,
    ms2: Seq<M::Morphism>,
    j: int,
    top: int,
    v: M::Value,
)
    requires
        forall|k: int| #[trigger] is_ancestor(k, j) && k > top ==> ms1[k] == ms2[k],
    ensures
        resolve_below::<M>(ms1, j, top, v) == resolve_below::<M>(ms2, j, top, v),
    decreases j,
{
    if !(j < 1 || j <= top) {
        assert(is_ancestor(j, j));
        assert forall|k: int| #[trigger] is_ancestor(k, j / 2) && k > top implies ms1[k] == ms2[k] by {
            lemma_ancestor_le(k, j / 2);
            assert(is_ancestor(k, j));
        }
        lemma_resolve_below_frame::<M>(ms1, ms2, j / 2, top, M::apply_spec(ms1[j], v));
    }
}

/// Resolution from `j` factors through any ancestor `top` of `j`.
pub proof fn lemma_resolve_split<M: MonoidWithMorphism>(
    ms: Seq<M::Morphism>,
    j: int,
    top: int,
    v: M::Value,
)
    requires
        is_ancestor(top, j),
    ensures
        resolve::<M>(ms, j, v) == resolve::<M>(ms, top, resolve_below::<M>(ms, j, top, v)),
    decreases j,
{
    lemma_ancestor_le(top, j);
    if top != j {
        lemma_resolve_split::<M>(ms, j / 2, top, M::apply_spec(ms[j], v));
    }
}

/// Resolving through identity transforms changes nothing.
pub proof fn lemma_resolve_identity<M: MonoidWithMorphism>(
    ms: Seq<M::Morphism>,
    i: int,
    v: M::Value,
)
    requires
        forall|k: int| 1 <= k <= i ==> #[trigger] ms[k] == M::id_map_spec(),
    ensures
        resolve::<M>(ms, i, v) == v,
    decreases i,
{
    if i >= 1 {
        M::lemma_apply_id_map(v);
        lemma_resolve_identity::<M>(ms, i / 2, v);
    }
}

/// A proper ancestor is reached through one of its two children.
pub proof fn lemma_ancestor_via_child(i: int, j: int)
    requires
        is_ancestor(i, j),
        i >= 1,
        i != j,
    ensures
        is_ancestor(2 * i, j) || is_ancestor(2 * i + 1, j),
    decreases j,
{
    if j / 2 == i {
        assert(j == 2 * i || j == 2 * i + 1);
        assert(is_ancestor(j, j));
    } else {
        assert(is_ancestor(i, j / 2));
        lemma_ancestor_via_child(i, j / 2);
        assert(2 * i != j && 2 * i + 1 != j);
    }
}


/// Ancestry is transitive.
pub proof fn lemma_ancestor_transitive(k: int, p: int, x: int)
    requires
        is_ancestor(k, p),
        is_ancestor(p, x),
    ensures
        is_ancestor(k, x),
    decreases x,
{
    lemma_ancestor_le(k, p);
    lemma_ancestor_le(p, x);
    if p != x {
        lemma_ancestor_transitive(k, p, x / 2);
    }
}

/// The identity transform acts as the identity.
pub proof fn lemma_id_map_acts_as_id<M: MonoidWithMorphism>()
    ensures
        acts_as_id::<M>(M::id_map_spec()),
{
    assert forall|v: M::Value| #[trigger] M::apply_spec(M::id_map_spec(), v) == v by {
        M::lemma_apply_id_map(v);
    }
}

/// Composing two transforms that act as the identity again acts as the
/// identity.
pub proof fn lemma_compose_acts_as_id<M: MonoidWithMorphism>(f: M::Morphism, g: M::Morphism)
    requires
        acts_as_id::<M>(f),
        acts_as_id::<M>(g),
    ensures
        acts_as_id::<M>(M::compose_spec(f, g)),
{
    assert forall|v: M::Value| #[trigger] M::apply_spec(M::compose_spec(f, g), v) == v by {
        M::lemma_compose_apply(f, g, v);
    }
}

/// Resolving through transforms that all act as the identity changes
/// nothing.
pub proof fn lemma_resolve_through_id<M: MonoidWithMorphism>(
    ms: Seq<M::Morphism>,
    i: int,
    v: M::Value,
)
    requires
        forall|k: int| #[trigger] is_ancestor(k, i) ==> acts_as_id::<M>(ms[k]),
    ensures
        resolve::<M>(ms, i, v) == v,
    decreases i,
{
    if i >= 1 {
        assert(is_ancestor(i, i));
        assert(M::apply_spec(ms[i], v) == v);
        assert forall|k: int| #[trigger] is_ancestor(k, i / 2) implies acts_as_id::<M>(ms[k]) by {
            lemma_ancestor_le(k, i / 2);
            assert(is_ancestor(k, i));
        }
        lemma_resolve_through_id::<M>(ms, i / 2, v);
    }
}

/// Some node of `[a, b)` is an ancestor of `leaf`.
pub open spec fn covered_by(a: int, b: int, leaf: int) -> bool {
    exists|c: int| a <= c < b && #[trigger] is_ancestor(c, leaf)
}

/// An ancestor of a leaf slot that itself sits in the leaf band is that
/// very slot.
pub proof fn lemma_leaf_band_ancestor(c: int, leaf: int, n: int)
    requires
        is_ancestor(c, leaf),
        c >= n,
        n >= 1,
        leaf < 2 * n,
    ensures
        c == leaf,
{
    lemma_ancestor_le(c, leaf);
    if c != leaf {
        lemma_ancestor_le(c, leaf / 2);
    }
}

/// Over the leaf band itself, coverage is exactly range membership.
pub proof fn lemma_cover_at_leaves(n: int, l: int, r: int, j: int)
    requires
        n >= 1,
        0 <= l <= r <= n,
        0 <= j < n,
    ensures
        covered_by(n + l, n + r, n + j) == (l <= j < r),
{
    if l <= j < r {
        assert(is_ancestor(n + j, n + j));
        assert(covered_by(n + l, n + r, n + j));
    }
    if covered_by(n + l, n + r, n + j) {
        let c = choose|c: int| n + l <= c < n + r && #[trigger] is_ancestor(c, n + j);
        lemma_leaf_band_ancestor(c, n + j, n);
    }
}

/// Replacing a range of nodes, both endpoints even, by their parents
/// keeps the coverage of every leaf.
pub proof fn lemma_cover_halve(a: int, b: int, leaf: int, n: int)
    requires
        n >= 1,
        2 <= a <= b,
        b <= 2 * n,
        a % 2 == 0,
        b % 2 == 0,
        leaf >= n,
    ensures
        covered_by(a / 2, b / 2, leaf) == covered_by(a, b, leaf),
{
    if covered_by(a, b, leaf) {
        let c = choose|c: int| a <= c < b && #[trigger] is_ancestor(c, leaf);
        lemma_ancestor_chain(c, leaf);
        assert(a / 2 <= c / 2 < b / 2);
        assert(covered_by(a / 2, b / 2, leaf));
    }
    if covered_by(a / 2, b / 2, leaf) {
        let c = choose|c: int| a / 2 <= c < b / 2 && #[trigger] is_ancestor(c, leaf);
        lemma_ancestor_le(c, leaf);
        lemma_ancestor_via_child(c, leaf);
        if is_ancestor(2 * c, leaf) {
            assert(a <= 2 * c < b);
            assert(covered_by(a, b, leaf));
        } else {
            assert(a <= 2 * c + 1 < b);
            assert(covered_by(a, b, leaf));
        }
    }
}

/// In a node range no wider than one level, no node is an ancestor of
/// another.
pub proof fn lemma_no_ancestor_within(a: int, b: int, c: int, c2: int)
    requires
        1 <= a,
        b <= 2 * a,
        a <= c < b,
        a <= c2 < b,
        c != c2,
    ensures
        !is_ancestor(c, c2),
{
    if is_ancestor(c, c2) {
        lemma_ancestor_le(c, c2);
        lemma_ancestor_le(c, c2 / 2);
    }
}

/// Every buffer node has a leaf below it.
pub proof fn lemma_leaf_below(c: int, n: int)
    requires
        1 <= c < 2 * n,
        n >= 1,
    ensures
        exists|j: int| 0 <= j < n && #[trigger] is_ancestor(c, n + j),
    decreases 2 * n - c,
{
    if c >= n {
        assert(is_ancestor(c, c));
        assert(is_ancestor(c, n + (c - n)));
    } else {
        lemma_leaf_below(2 * c, n);
        let j = choose|j: int| 0 <= j < n && #[trigger] is_ancestor(2 * c, n + j);
        assert(is_ancestor(c, c));
        assert(is_ancestor(c, 2 * c));
        lemma_ancestor_transitive(c, 2 * c, n + j);
        assert(is_ancestor(c, n + j));
    }
}

/// Composing a transform in front of a node whose strict ancestors all
/// act as the identity applies exactly that transform to the resolved
/// value of every leaf below the node, and touches no other leaf.
proof fn lemma_compose_at_node<M: MonoidWithMorphism>(
    ms0: Seq<M::Morphism>,
    vs: Seq<M::Value>,
    f: M::Morphism,
    c: int,
    n: int,
    j: int,
)
    requires
        n >= 1,
        1 <= c < 2 * n,
        0 <= j < n,
        vs.len() == 2 * n,
        ms0.len() == 2 * n,
        forall|k: int| #[trigger] is_ancestor(k, c) && k != c ==> acts_as_id::<M>(ms0[k]),
    ensures
        ({
            let ms1 = ms0.update(c, M::compose_spec(f, ms0[c]));
            &&& (is_ancestor(c, n + j) ==> resolve::<M>(ms1, n + j, vs[n + j]) == M::apply_spec(
                f,
                resolve::<M>(ms0, n + j, vs[n + j]),
            ))
            &&& (!is_ancestor(c, n + j) ==> resolve::<M>(ms1, n + j, vs[n + j]) == resolve::<M>(
                ms0,
                n + j,
                vs[n + j],
            ))
        }),
{
    let ms1 = ms0.update(c, M::compose_spec(f, ms0[c]));
    let lf = n + j;
    let vl = vs[lf];
    if !is_ancestor(c, lf) {
        assert forall|k: int| #[trigger] is_ancestor(k, lf) implies ms1[k] == ms0[k] by {
            lemma_ancestor_le(k, lf);
        }
        lemma_resolve_frame::<M>(ms1, ms0, lf, vl);
    } else if c == lf {
        assert(resolve::<M>(ms0, lf, vl) == resolve::<M>(ms0, lf / 2, M::apply_spec(ms0[lf], vl)));
        assert(resolve::<M>(ms1, lf, vl) == resolve::<M>(ms1, lf / 2, M::apply_spec(ms1[lf], vl)));
        M::lemma_compose_apply(f, ms0[lf], vl);
        assert forall|k: int| #[trigger] is_ancestor(k, lf / 2) implies acts_as_id::<M>(ms0[k])
            && ms1[k] == ms0[k] by {
            lemma_ancestor_le(k, lf / 2);
            assert(is_ancestor(k, lf));
        }
        lemma_resolve_through_id::<M>(ms0, lf / 2, M::apply_spec(ms0[lf], vl));
        lemma_resolve_through_id::<M>(ms1, lf / 2, M::apply_spec(ms1[lf], vl));
    } else {
        let u0 = resolve_below::<M>(ms0, lf, c, vl);
        assert forall|k: int| #[trigger] is_ancestor(k, lf) && k > c implies ms1[k] == ms0[k] by {
            lemma_ancestor_le(k, lf);
        }
        lemma_resolve_below_frame::<M>(ms1, ms0, lf, c, vl);
        lemma_resolve_split::<M>(ms0, lf, c, vl);
        lemma_resolve_split::<M>(ms1, lf, c, vl);
        assert(resolve_below::<M>(ms1, lf, c, vl) == u0);
        lemma_ancestor_le(c, lf);
        assert(resolve::<M>(ms0, c, u0) == resolve::<M>(ms0, c / 2, M::apply_spec(ms0[c], u0)));
        assert(resolve::<M>(ms1, c, u0) == resolve::<M>(ms1, c / 2, M::apply_spec(ms1[c], u0)));
        M::lemma_compose_apply(f, ms0[c], u0);
        assert forall|k: int| #[trigger] is_ancestor(k, c / 2) implies acts_as_id::<M>(ms0[k])
            && ms1[k] == ms0[k] by {
            lemma_ancestor_le(k, c / 2);
            assert(is_ancestor(k, c));
        }
        lemma_resolve_through_id::<M>(ms0, c / 2, M::apply_spec(ms0[c], u0));
        lemma_resolve_through_id::<M>(ms1, c / 2, M::apply_spec(ms1[c], u0));
    }
}

/// Entries of a parent-chain sequence strictly decrease.
proof fn lemma_path_decreasing(p: Seq<usize>, t: int, s: int)
    requires
        0 <= t < s < p.len(),
        forall|i: int| 0 <= i < p.len() ==> 1 <= #[trigger] p[i],
        forall|i: int| 0 <= i < p.len() - 1 ==> #[trigger] p[i + 1] == p[i] / 2,
    ensures
        p[s] < p[t],
    decreases s - t,
{
    assert(p[t + 1] == p[t] / 2);
    if s > t + 1 {
        lemma_path_decreasing(p, t + 1, s);
    }
}

/// The node `k` still has a leaf below it that the minimal-cover walk
/// over `[a, b)` has yet to consume.
pub open spec fn has_pending_leaf(k: int, n: int, a: int, b: int) -> bool {
    exists|j: int|
        0 <= j < n && #[trigger] is_ancestor(k, n + j) && covered_by(a, b, n + j)
}

/// The view that `base` becomes once every leaf of `[l, r)` not still
/// awaiting the cover walk over `[a, b)` carries `f`'s effect.
pub open spec fn partial_view<M: MonoidWithMorphism>(
    base: Seq<M::Value>,
    f: M::Morphism,
    l: int,
    r: int,
    a: int,
    b: int,
    n: int,
) -> Seq<M::Value> {
    Seq::new(
        base.len(),
        |j: int|
            if l <= j < r && !covered_by(a, b, n + j) {
                M::apply_spec(f, base[j])
            } else {
                base[j]
            },
    )
}


/// The left-to-right fold of a sequence of values under the monoid of
/// `M`, starting from the identity.
pub open spec fn fold_value<M: MonoidWithMorphism>(s: Seq<M::Value>) -> M::Value
    decreases s.len(),
{
    if s.len() == 0 {
        M::id_spec()
    } else {
        M::op_spec(fold_value::<M>(s.drop_last()), s.last())
    }
}

/// Folding a concatenation equals combining the folds of the parts.
pub proof fn lemma_fold_value_concat<M: MonoidWithMorphism>(x: Seq<M::Value>, y: Seq<M::Value>)
    ensures
        fold_value::<M>(x + y) == M::op_spec(fold_value::<M>(x), fold_value::<M>(y)),
    decreases y.len(),
{
    if y.len() == 0 {
        assert(x + y =~= x);
        M::lemma_identity(fold_value::<M>(x));
    } else {
        lemma_fold_value_concat::<M>(x, y.drop_last());
        assert((x + y).drop_last() =~= x + y.drop_last());
        assert((x + y).last() == y.last());
        M::lemma_associative(fold_value::<M>(x), fold_value::<M>(y.drop_last()), y.last());
    }
}

/// A transform applied to the fold of a non-empty sequence folds the
/// pointwise-transformed sequence.
pub proof fn lemma_apply_fold<M: MonoidWithMorphism>(f: M::Morphism, s: Seq<M::Value>)
    requires
        s.len() >= 1,
    ensures
        M::apply_spec(f, fold_value::<M>(s)) == fold_value::<M>(
            s.map_values(|v: M::Value| M::apply_spec(f, v)),
        ),
    decreases s.len(),
{
    let m = s.map_values(|v: M::Value| M::apply_spec(f, v));
    if s.len() == 1 {
        assert(s.drop_last() =~= Seq::<M::Value>::empty());
        assert(m.drop_last() =~= Seq::<M::Value>::empty());
        assert(fold_value::<M>(Seq::<M::Value>::empty()) == M::id_spec());
        assert(fold_value::<M>(s) == M::op_spec(M::id_spec(), s.last()));
        assert(fold_value::<M>(m) == M::op_spec(M::id_spec(), m.last()));
        M::lemma_identity(s.last());
        M::lemma_identity(m.last());
        assert(m.last() == M::apply_spec(f, s.last()));
    } else {
        lemma_apply_fold::<M>(f, s.drop_last());
        assert(m.drop_last() =~= s.drop_last().map_values(|v: M::Value| M::apply_spec(f, v)));
        assert(m.last() == M::apply_spec(f, s.last()));
        M::lemma_apply_op(f, fold_value::<M>(s.drop_last()), s.last());
    }
}

/// The resolved leaf values below node `i`, taking `i`'s own pending
/// transform and everything below into account, but no ancestor.
pub open spec fn resolved_subtree<M: MonoidWithMorphism>(
    vs: Seq<M::Value>,
    ms: Seq<M::Morphism>,
    n: int,
    i: int,
) -> Seq<M::Value>
    decreases 2 * n - i,
{
    if i >= n || i < 1 {
        seq![M::apply_spec(ms[i], vs[i])]
    } else {
        (resolved_subtree::<M>(vs, ms, n, 2 * i) + resolved_subtree::<M>(
            vs,
            ms,
            n,
            2 * i + 1,
        )).map_values(|v: M::Value| M::apply_spec(ms[i], v))
    }
}

/// Apply the pending transforms of every strict ancestor of `i` to each
/// element, innermost first.
pub open spec fn apply_ancestors<M: MonoidWithMorphism>(
    ms: Seq<M::Morphism>,
    i: int,
    s: Seq<M::Value>,
) -> Seq<M::Value>
    decreases i,
{
    if i <= 1 {
        s
    } else {
        apply_ancestors::<M>(ms, i / 2, s.map_values(|v: M::Value| M::apply_spec(ms[i / 2], v)))
    }
}

/// The fully resolved leaves below `i`: its subtree under every
/// ancestor's pending transform.
pub open spec fn true_view<M: MonoidWithMorphism>(
    vs: Seq<M::Value>,
    ms: Seq<M::Morphism>,
    n: int,
    i: int,
) -> Seq<M::Value> {
    apply_ancestors::<M>(ms, i, resolved_subtree::<M>(vs, ms, n, i))
}

/// Ancestor application distributes over concatenation.
pub proof fn lemma_ancestors_concat<M: MonoidWithMorphism>(
    ms: Seq<M::Morphism>,
    i: int,
    x: Seq<M::Value>,
    y: Seq<M::Value>,
)
    ensures
        apply_ancestors::<M>(ms, i, x + y) == apply_ancestors::<M>(ms, i, x)
            + apply_ancestors::<M>(ms, i, y),
    decreases i,
{
    if i <= 1 {
        assert(apply_ancestors::<M>(ms, i, x + y) =~= apply_ancestors::<M>(ms, i, x)
            + apply_ancestors::<M>(ms, i, y));
    } else {
        let g = |v: M::Value| M::apply_spec(ms[i / 2], v);
        assert((x + y).map_values(g) =~= x.map_values(g) + y.map_values(g));
        lemma_ancestors_concat::<M>(ms, i / 2, x.map_values(g), y.map_values(g));
    }
}

/// A parent's resolved subtree is the concatenation of its children's
/// fully resolved leaves, seen one level down.
pub proof fn lemma_true_view_children<M: MonoidWithMorphism>(
    vs: Seq<M::Value>,
    ms: Seq<M::Morphism>,
    n: int,
    i: int,
)
    requires
        1 <= i < n,
    ensures
        true_view::<M>(vs, ms, n, i) == true_view::<M>(vs, ms, n, 2 * i) + true_view::<M>(
            vs,
            ms,
            n,
            2 * i + 1,
        ),
{
    let g = |v: M::Value| M::apply_spec(ms[i], v);
    let rl = resolved_subtree::<M>(vs, ms, n, 2 * i);
    let rr = resolved_subtree::<M>(vs, ms, n, 2 * i + 1);
    assert(apply_ancestors::<M>(ms, 2 * i, rl) == apply_ancestors::<M>(ms, i, rl.map_values(g)));
    assert(apply_ancestors::<M>(ms, 2 * i + 1, rr) == apply_ancestors::<M>(
        ms,
        i,
        rr.map_values(g),
    ));
    lemma_ancestors_concat::<M>(ms, i, rl.map_values(g), rr.map_values(g));
    assert(rl.map_values(g) + rr.map_values(g) =~= (rl + rr).map_values(g));
}

/// Ancestor application turns a one-element sequence into the resolved
/// value one step up.
pub proof fn lemma_ancestors_single<M: MonoidWithMorphism>(
    ms: Seq<M::Morphism>,
    i: int,
    w: M::Value,
)
    requires
        i >= 1,
    ensures
        apply_ancestors::<M>(ms, i, seq![w]) == seq![resolve::<M>(ms, i / 2, w)],
    decreases i,
{
    if i == 1 {
        assert(apply_ancestors::<M>(ms, i, seq![w]) =~= seq![resolve::<M>(ms, 0, w)]);
    } else {
        let g = |v: M::Value| M::apply_spec(ms[i / 2], v);
        assert(seq![w].map_values(g) =~= seq![M::apply_spec(ms[i / 2], w)]);
        lemma_ancestors_single::<M>(ms, i / 2, M::apply_spec(ms[i / 2], w));
        assert(resolve::<M>(ms, i / 2, w) == resolve::<M>(
            ms,
            i / 4,
            M::apply_spec(ms[i / 2], w),
        ));
        assert((i / 2) / 2 == i / 4) by (nonlinear_arith)
            requires
                i >= 2,
        ;
    }
}

/// A leaf's fully resolved one-element sequence holds exactly its
/// resolved value.
pub proof fn lemma_true_view_leaf<M: MonoidWithMorphism>(
    vs: Seq<M::Value>,
    ms: Seq<M::Morphism>,
    n: int,
    i: int,
)
    requires
        n >= 1,
        n <= i < 2 * n,
    ensures
        true_view::<M>(vs, ms, n, i) == seq![resolve::<M>(ms, i, vs[i])],
{
    lemma_ancestors_single::<M>(ms, i, M::apply_spec(ms[i], vs[i]));
    assert(resolve::<M>(ms, i, vs[i]) == resolve::<M>(ms, i / 2, M::apply_spec(ms[i], vs[i])));
}

/// In a well-formed buffer, each node's stored value under its own
/// pending transform folds its resolved subtree.
pub proof fn lemma_resolved_node_value<M: MonoidWithMorphism>(
    vs: Seq<M::Value>,
    ms: Seq<M::Morphism>,
    n: int,
    i: int,
)
    requires
        n >= 1,
        vs.len() == 2 * n,
        ms.len() == 2 * n,
        1 <= i < 2 * n,
        forall|k: int| 1 <= k < n ==> #[trigger] node_ok::<M>(vs, ms, k),
    ensures
        M::apply_spec(ms[i], vs[i]) == fold_value::<M>(resolved_subtree::<M>(vs, ms, n, i)),
        resolved_subtree::<M>(vs, ms, n, i).len() >= 1,
    decreases 2 * n - i,
{
    if i >= n {
        let s = resolved_subtree::<M>(vs, ms, n, i);
        assert(s =~= seq![M::apply_spec(ms[i], vs[i])]);
        assert(s.drop_last() =~= Seq::<M::Value>::empty());
        assert(fold_value::<M>(Seq::<M::Value>::empty()) == M::id_spec());
        assert(fold_value::<M>(s) == M::op_spec(M::id_spec(), s.last()));
        M::lemma_identity(s.last());
    } else {
        lemma_resolved_node_value::<M>(vs, ms, n, 2 * i);
        lemma_resolved_node_value::<M>(vs, ms, n, 2 * i + 1);
        let rl = resolved_subtree::<M>(vs, ms, n, 2 * i);
        let rr = resolved_subtree::<M>(vs, ms, n, 2 * i + 1);
        lemma_fold_value_concat::<M>(rl, rr);
        assert(node_ok::<M>(vs, ms, i));
        assert(vs[i] == fold_value::<M>(rl + rr));
        lemma_apply_fold::<M>(ms[i], rl + rr);
    }
}

/// With every strict ancestor acting as the identity, the fully
/// resolved leaves are just the resolved subtree.
pub proof fn lemma_ancestors_clean<M: MonoidWithMorphism>(
    ms: Seq<M::Morphism>,
    i: int,
    s: Seq<M::Value>,
)
    requires
        i >= 1,
        forall|k: int| #[trigger] is_ancestor(k, i) && k != i ==> acts_as_id::<M>(ms[k]),
    ensures
        apply_ancestors::<M>(ms, i, s) == s,
    decreases i,
{
    if i > 1 {
        let g = |v: M::Value| M::apply_spec(ms[i / 2], v);
        assert(is_ancestor(i / 2, i)) by {
            assert(is_ancestor(i / 2, i / 2));
        }
        assert(acts_as_id::<M>(ms[i / 2]));
        assert(s.map_values(g) =~= s);
        assert forall|k: int| #[trigger] is_ancestor(k, i / 2) && k != i / 2 implies
            acts_as_id::<M>(ms[k]) by {
            lemma_ancestor_le(k, i / 2);
            assert(is_ancestor(k, i));
        }
        lemma_ancestors_clean::<M>(ms, i / 2, s);
    }
}

/// The concatenated fully resolved leaves of the node range `[l, r)`.
pub open spec fn true_range<M: MonoidWithMorphism>(
    vs: Seq<M::Value>,
    ms: Seq<M::Morphism>,
    n: int,
    l: int,
    r: int,
) -> Seq<M::Value>
    decreases r - l,
{
    if l >= r {
        Seq::empty()
    } else {
        true_view::<M>(vs, ms, n, l) + true_range::<M>(vs, ms, n, l + 1, r)
    }
}

/// A node range may also be consumed from its right end.
pub proof fn lemma_true_range_last<M: MonoidWithMorphism>(
    vs: Seq<M::Value>,
    ms: Seq<M::Morphism>,
    n: int,
    l: int,
    r: int,
)
    requires
        l < r,
    ensures
        true_range::<M>(vs, ms, n, l, r) == true_range::<M>(vs, ms, n, l, r - 1) + true_view::<M>(
            vs,
            ms,
            n,
            r - 1,
        ),
    decreases r - l,
{
    if l == r - 1 {
        assert(true_range::<M>(vs, ms, n, l + 1, r) =~= Seq::<M::Value>::empty());
        assert(true_range::<M>(vs, ms, n, l, r - 1) =~= Seq::<M::Value>::empty());
        assert(true_range::<M>(vs, ms, n, l, r) == true_view::<M>(vs, ms, n, l)
            + true_range::<M>(vs, ms, n, l + 1, r));
        assert(true_range::<M>(vs, ms, n, l, r) =~= true_range::<M>(vs, ms, n, l, r - 1)
            + true_view::<M>(vs, ms, n, r - 1));
    } else {
        lemma_true_range_last::<M>(vs, ms, n, l + 1, r);
        assert(true_range::<M>(vs, ms, n, l, r) =~= true_range::<M>(vs, ms, n, l, r - 1)
            + true_view::<M>(vs, ms, n, r - 1));
    }
}

/// Replacing a range of nodes, both endpoints even, by their parents
/// keeps the concatenated fully resolved leaves.
pub proof fn lemma_true_range_halve<M: MonoidWithMorphism>(
    vs: Seq<M::Value>,
    ms: Seq<M::Morphism>,
    n: int,
    l: int,
    r: int,
)
    requires
        n >= 1,
        2 <= l,
        l <= r,
        r <= 2 * n,
        l % 2 == 0,
        r % 2 == 0,
    ensures
        true_range::<M>(vs, ms, n, l / 2, r / 2) == true_range::<M>(vs, ms, n, l, r),
    decreases r - l,
{
    if l == r {
        assert(true_range::<M>(vs, ms, n, l / 2, r / 2) =~= true_range::<M>(vs, ms, n, l, r));
    } else {
        lemma_true_range_halve::<M>(vs, ms, n, l + 2, r);
        assert(l / 2 < n);
        lemma_true_view_children::<M>(vs, ms, n, l / 2);
        assert(true_range::<M>(vs, ms, n, l + 1, r) == true_view::<M>(vs, ms, n, l + 1)
            + true_range::<M>(vs, ms, n, l + 2, r));
        assert(true_range::<M>(vs, ms, n, l / 2, r / 2) =~= true_range::<M>(vs, ms, n, l, r));
    }
}

/// Over the leaf band, the fully resolved node range is the matching
/// stretch of the abstraction.
pub proof fn lemma_true_range_band<M: MonoidWithMorphism>(
    vs: Seq<M::Value>,
    ms: Seq<M::Morphism>,
    n: int,
    a: int,
    b: int,
)
    requires
        n >= 1,
        0 <= a,
        a <= b,
        b <= n,
        vs.len() == 2 * n,
    ensures
        true_range::<M>(vs, ms, n, n + a, n + b) == Seq::new(
            (b - a) as nat,
            |t: int| resolve::<M>(ms, n + a + t, vs[n + a + t]),
        ),
    decreases b - a,
{
    if a == b {
        assert(true_range::<M>(vs, ms, n, n + a, n + b) =~= Seq::new(
            (b - a) as nat,
            |t: int| resolve::<M>(ms, n + a + t, vs[n + a + t]),
        ));
    } else {
        lemma_true_range_band::<M>(vs, ms, n, a + 1, b);
        lemma_true_view_leaf::<M>(vs, ms, n, n + a);
        assert(true_range::<M>(vs, ms, n, n + a, n + b) =~= Seq::new(
            (b - a) as nat,
            |t: int| resolve::<M>(ms, n + a + t, vs[n + a + t]),
        ));
    }
}

/// The contribution the minimal-cover walk reads at node `c` — its
/// stored value under its own pending transform — folds exactly its
/// fully resolved leaves, because every strict ancestor of `c` lies on
/// the cleaned boundary path through `p`.
proof fn lemma_cover_contribution<M: MonoidWithMorphism>(
    vs: Seq<M::Value>,
    ms: Seq<M::Morphism>,
    n: int,
    c: int,
    p: int,
    x: int,
)
    requires
        n >= 1,
        vs.len() == 2 * n,
        ms.len() == 2 * n,
        1 <= c < 2 * n,
        forall|k: int| 1 <= k < n ==> #[trigger] node_ok::<M>(vs, ms, k),
        forall|k: int| #[trigger] is_ancestor(k, x) ==> acts_as_id::<M>(ms[k]),
        c / 2 == p / 2,
        p >= 1 ==> is_ancestor(p, x),
        0 <= p,
    ensures
        M::apply_spec(ms[c], vs[c]) == fold_value::<M>(true_view::<M>(vs, ms, n, c)),
        true_view::<M>(vs, ms, n, c) == resolved_subtree::<M>(vs, ms, n, c),
{
    lemma_resolved_node_value::<M>(vs, ms, n, c);
    assert forall|k: int| #[trigger] is_ancestor(k, c) && k != c implies acts_as_id::<M>(
        ms[k],
    ) by {
        assert(is_ancestor(k, c / 2));
        lemma_ancestor_le(k, c / 2);
        assert(p / 2 >= 1);
        assert(p >= 1);
        lemma_ancestor_chain(p, x);
        assert(is_ancestor(p / 2, x));
        lemma_ancestor_transitive(k, c / 2, x);
    }
    lemma_ancestors_clean::<M>(ms, c, resolved_subtree::<M>(vs, ms, n, c));
}

/// Concatenation of sequences is associative.
proof fn lemma_seq_assoc<A>(x: Seq<A>, y: Seq<A>, z: Seq<A>)
    ensures
        (x + y) + z == x + (y + z),
{
    assert((x + y) + z =~= x + (y + z));
}

/// The empty sequence is a two-sided unit of concatenation.
proof fn lemma_seq_empty_unit<A>(x: Seq<A>)
    ensures
        x + Seq::<A>::empty() == x,
        Seq::<A>::empty() + x == x,
{
    assert(x + Seq::<A>::empty() =~= x);
    assert(Seq::<A>::empty() + x =~= x);
}

/// The internal node `k` of the buffer pair combines its two children,
/// each taken under its own pending transform.
pub open spec fn node_ok<M: MonoidWithMorphism>(
    vs: Seq<M::Value>,
    ms: Seq<M::Morphism>,
    k: int,
) -> bool {
    vs[k] == M::op_spec(
        M::apply_spec(ms[2 * k], vs[2 * k]),
        M::apply_spec(ms[2 * k + 1], vs[2 * k + 1]),
    )
}

/// The lazy segment tree over the capability `M`.
///
/// The abstraction of a tree is the sequence of its `N` fully resolved
/// leaf values.
pub struct LazySegtree<M: MonoidWithMorphism> {
    values: Vec<M::Value>,
    morphisms: Vec<M::Morphism>,
}

impl<M: MonoidWithMorphism> View for LazySegtree<M> {
    type V = Seq<M::Value>;

    closed spec fn view(&self) -> Seq<M::Value> {
        Seq::new(
            (self.values@.len() / 2) as nat,
            |j: int|
                resolve::<M>(
                    self.morphisms@,
                    self.values@.len() as int / 2 + j,
                    self.values@[self.values@.len() as int / 2 + j],
                ),
        )
    }
}

impl<M: MonoidWithMorphism> LazySegtree<M> {
    /// The number of leaves.
    pub closed spec fn spec_n(&self) -> int {
        self.values@.len() as int / 2
    }

    /// The two buffers have the fixed shape: equal lengths `2 * N`,
    /// `N >= 1`.
    pub closed spec fn shape_wf(&self) -> bool {
        &&& self.values@.len() == self.morphisms@.len()
        &&& self.values@.len() >= 2
        &&& self.values@.len() % 2 == 0
    }

    /// Well-formedness: the shape, a neutral transform on the unused
    /// slot 0, and every internal node combining its children under
    /// their pending transforms.
    pub closed spec fn wf(&self) -> bool {
        &&& self.shape_wf()
        &&& acts_as_id::<M>(self.morphisms@[0])
        &&& forall|k: int|
            1 <= k < self.spec_n() ==> #[trigger] node_ok::<M>(self.values@, self.morphisms@, k)
    }

    /// The number of leaves, as seen through the abstraction.
    pub proof fn lemma_view_len(&self)
        requires
            self.shape_wf(),
        ensures
            self@.len() == self.spec_n(),
            self@.len() >= 1,
    {
    }

    /// Build a tree whose resolved leaves are `values`, with no pending
    /// transforms anywhere.
    ///
    /// Fails with `EmptyConstruction` exactly when `values` is empty.
    #[verifier::loop_isolation(false)]
    pub fn new(values: &Vec<M::Value>) -> (result: Result<Self, SegtreeError>)
        requires
            values@.len() * 2 <= usize::MAX,
        ensures
            match result {
                Ok(t) => t.wf() && t@ == values@ && values@.len() > 0,
                Err(e) => e == SegtreeError::EmptyConstruction && values@.len() == 0,
            },
    {
        let n = values.len();
        if n == 0 {
            return Err(SegtreeError::EmptyConstruction);
        }
        let mut buf: Vec<M::Value> = Vec::new();
        let mut i: usize = 0;
        while i < n
            invariant
                i <= n,
                buf@.len() == i,
            decreases n - i,
        {
            buf.push(M::id());
            i += 1;
        }
        let mut i: usize = 0;
        while i < n
            invariant
                i <= n,
                buf@.len() == n + i,
                forall|k: int| n <= k < n + i ==> buf@[k] == values@[k - n],
            decreases n - i,
        {
            buf.push(values[i]);
            i += 1;
        }
        let mut i: usize = n - 1;
        while i >= 1
            invariant
                0 <= i <= n - 1,
                buf@.len() == 2 * n,
                forall|k: int| n <= k < 2 * n ==> buf@[k] == values@[k - n],
                forall|k: int|
                    i < k < n ==> #[trigger] buf@[k] == M::op_spec(buf@[2 * k], buf@[2 * k + 1]),
            decreases i,
        {
            let combined = M::op(&buf[2 * i], &buf[2 * i + 1]);
            buf[i] = combined;
            i -= 1;
        }
        let mut ms: Vec<M::Morphism> = Vec::new();
        let mut i: usize = 0;
        while i < 2 * n
            invariant
                i <= 2 * n,
                ms@.len() == i,
                forall|k: int| 0 <= k < i ==> #[trigger] ms@[k] == M::id_map_spec(),
            decreases 2 * n - i,
        {
            ms.push(M::id_map());
            i += 1;
        }
        let tree = LazySegtree { values: buf, morphisms: ms };
        proof {
            assert forall|v: M::Value| #[trigger] M::apply_spec(tree.morphisms@[0], v) == v by {
                M::lemma_apply_id_map(v);
            }
            assert forall|k: int|
                1 <= k < tree.spec_n() implies #[trigger] node_ok::<M>(
                tree.values@,
                tree.morphisms@,
                k,
            ) by {
                M::lemma_apply_id_map(tree.values@[2 * k]);
                M::lemma_apply_id_map(tree.values@[2 * k + 1]);
            }
            assert forall|j: int| 0 <= j < n implies tree@[j] == values@[j] by {
                lemma_resolve_identity::<M>(tree.morphisms@, n + j, tree.values@[n + j]);
            }
            assert(tree@ =~= values@);
        }
        Ok(tree)
    }

    /// Read the resolved value of leaf `i`: walk from the leaf to the
    /// root, applying every pending transform on the way.  Mutates
    /// nothing.
    ///
    /// Fails with `IndexOutOfRange` exactly when `i >= N`.
    #[verifier::loop_isolation(false)]
    pub fn get(&self, i: usize) -> (result: Result<M::Value, SegtreeError>)
        requires
            self.wf(),
        ensures
            match result {
                Ok(v) => i < self@.len() && v == self@[i as int],
                Err(e) => e == SegtreeError::IndexOutOfRange && i >= self@.len(),
            },
    {
        let n = self.values.len() / 2;
        proof {
            self.lemma_view_len();
        }
        if i >= n {
            return Err(SegtreeError::IndexOutOfRange);
        }
        let mut j = i + n;
        let mut value = self.values[j];
        while j >= 1
            invariant
                j < self.values@.len(),
                self.shape_wf(),
                resolve::<M>(self.morphisms@, j as int, value) == self@[i as int],
            decreases j,
        {
            value = M::apply(&self.morphisms[j], &value);
            j /= 2;
        }
        Ok(value)
    }

    /// Copy out all resolved leaves, in order.
    #[verifier::loop_isolation(false)]
    pub fn collect(&self) -> (r: Vec<M::Value>)
        requires
            self.wf(),
        ensures
            r@ == self@,
    {
        let n = self.values.len() / 2;
        proof {
            self.lemma_view_len();
        }
        let mut out: Vec<M::Value> = Vec::new();
        let mut i: usize = 0;
        while i < n
            invariant
                i <= n,
                out@.len() == i,
                forall|k: int| 0 <= k < i ==> out@[k] == self@[k],
            decreases n - i,
        {
            let got = self.get(i);
            let v = match got {
                Ok(v) => v,
                Err(_) => M::id(),
            };
            out.push(v);
            i += 1;
        }
        proof {
            assert(out@ =~= self@);
        }
        out
    }

    /// Resolve node `i`'s pending transform: apply it to the node's own
    /// value, reset it to the identity, and compose it in front of both
    /// children's pending transforms.
    ///
    /// This changes the stored representation but provably not the
    /// resolved leaf sequence.
    fn push(&mut self, i: usize)
        requires
            old(self).wf(),
            1 <= i < old(self).values@.len(),
        ensures
            final(self).wf(),
            final(self)@ == old(self)@,
            final(self).values@.len() == old(self).values@.len(),
            final(self).spec_n() == old(self).spec_n(),
            final(self).values@ == old(self).values@.update(
                i as int,
                M::apply_spec(old(self).morphisms@[i as int], old(self).values@[i as int]),
            ),
            (i as int) >= old(self).spec_n() ==> final(self).morphisms@ == old(self).morphisms@
                .update(i as int, M::id_map_spec()),
            (i as int) < old(self).spec_n() ==> final(self).morphisms@ == old(self).morphisms@
                .update(i as int, M::id_map_spec()).update(
                2 * (i as int),
                M::compose_spec(
                    old(self).morphisms@[i as int],
                    old(self).morphisms@[2 * (i as int)],
                ),
            ).update(
                2 * (i as int) + 1,
                M::compose_spec(
                    old(self).morphisms@[i as int],
                    old(self).morphisms@[2 * (i as int) + 1],
                ),
            ),
    {
        let a = self.morphisms[i];
        self.morphisms[i] = M::id_map();
        let av = M::apply(&a, &self.values[i]);
        self.values[i] = av;
        let n = self.values.len() / 2;
        if i < n {
            let c1 = M::compose(&a, &self.morphisms[2 * i]);
            self.morphisms[2 * i] = c1;
            let c2 = M::compose(&a, &self.morphisms[2 * i + 1]);
            self.morphisms[2 * i + 1] = c2;
        }
        proof {
            let nn = old(self).spec_n();
            let ii = i as int;
            let ms0 = old(self).morphisms@;
            let vs0 = old(self).values@;
            let ms1 = self.morphisms@;
            let vs1 = self.values@;
            let am = ms0[ii];
            // The resolved leaf sequence is unchanged.
            assert forall|j: int| 0 <= j < nn implies self@[j] == old(self)@[j] by {
                let lf = nn + j;
                if !is_ancestor(ii, lf) {
                    assert forall|k: int| #[trigger] is_ancestor(k, lf) implies ms1[k] == ms0[k] by {
                        lemma_ancestor_le(k, lf);
                        if k == 2 * ii || k == 2 * ii + 1 {
                            lemma_ancestor_step(ii, lf);
                        }
                    }
                    lemma_resolve_frame::<M>(ms1, ms0, lf, vs0[lf]);
                } else if ii >= nn {
                    if ii != lf {
                        lemma_ancestor_le(ii, lf / 2);
                    }
                    assert(ii == lf);
                    M::lemma_apply_id_map(M::apply_spec(am, vs0[lf]));
                    assert(resolve::<M>(ms1, lf, vs1[lf]) == resolve::<M>(
                        ms1,
                        lf / 2,
                        M::apply_spec(am, vs0[lf]),
                    ));
                    assert forall|k: int| #[trigger] is_ancestor(k, lf / 2) implies ms1[k]
                        == ms0[k] by {
                        lemma_ancestor_le(k, lf / 2);
                    }
                    lemma_resolve_frame::<M>(ms1, ms0, lf / 2, M::apply_spec(am, vs0[lf]));
                } else {
                    lemma_ancestor_le(ii, lf);
                    assert(ii != lf);
                    lemma_ancestor_via_child(ii, lf);
                    let c: int = if is_ancestor(2 * ii, lf) {
                        2 * ii
                    } else {
                        2 * ii + 1
                    };
                    assert(is_ancestor(c, lf));
                    assert(c / 2 == ii);
                    let u = resolve_below::<M>(ms0, lf, c, vs0[lf]);
                    assert forall|k: int| #[trigger] is_ancestor(k, lf) && k > c implies ms1[k]
                        == ms0[k] by {
                        lemma_ancestor_le(k, lf);
                        if k == 2 * ii || k == 2 * ii + 1 {
                            assert(k != c);
                            let lo: int = if c < k { c } else { k };
                            let hi: int = if c < k { k } else { c };
                            lemma_ancestor_compare(lo, hi, lf);
                            assert(hi / 2 == ii);
                            assert(is_ancestor(lo, hi / 2));
                            lemma_ancestor_le(lo, ii);
                            assert(false);
                        }
                        if k == ii {
                            assert(false);
                        }
                    }
                    lemma_resolve_below_frame::<M>(ms1, ms0, lf, c, vs0[lf]);
                    lemma_resolve_split::<M>(ms0, lf, c, vs0[lf]);
                    lemma_resolve_split::<M>(ms1, lf, c, vs1[lf]);
                    assert(resolve::<M>(ms0, lf, vs0[lf]) == resolve::<M>(
                        ms0,
                        ii,
                        M::apply_spec(ms0[c], u),
                    ));
                    assert(resolve::<M>(ms0, ii, M::apply_spec(ms0[c], u)) == resolve::<M>(
                        ms0,
                        ii / 2,
                        M::apply_spec(am, M::apply_spec(ms0[c], u)),
                    ));
                    M::lemma_compose_apply(am, ms0[c], u);
                    M::lemma_apply_id_map(M::apply_spec(am, M::apply_spec(ms0[c], u)));
                    assert(vs1[lf] == vs0[lf]);
                    assert(resolve_below::<M>(ms1, lf, c, vs1[lf]) == u);
                    assert(ms1[c] == M::compose_spec(am, ms0[c]));
                    assert(ms1[ii] == M::id_map_spec());
                    assert(resolve::<M>(ms1, lf, vs1[lf]) == resolve::<M>(ms1, c, u));
                    assert(resolve::<M>(ms1, c, u) == resolve::<M>(
                        ms1,
                        ii,
                        M::apply_spec(ms1[c], u),
                    ));
                    assert(M::apply_spec(ms1[c], u) == M::apply_spec(
                        am,
                        M::apply_spec(ms0[c], u),
                    ));
                    assert(resolve::<M>(ms1, ii, M::apply_spec(ms1[c], u)) == resolve::<M>(
                        ms1,
                        ii / 2,
                        M::apply_spec(ms1[ii], M::apply_spec(ms1[c], u)),
                    ));
                    assert(resolve::<M>(ms1, lf, vs1[lf]) == resolve::<M>(
                        ms1,
                        ii / 2,
                        M::apply_spec(am, M::apply_spec(ms0[c], u)),
                    ));
                    assert forall|k: int| #[trigger] is_ancestor(k, ii / 2) implies ms1[k]
                        == ms0[k] by {
                        lemma_ancestor_le(k, ii / 2);
                    }
                    lemma_resolve_frame::<M>(
                        ms1,
                        ms0,
                        ii / 2,
                        M::apply_spec(am, M::apply_spec(ms0[c], u)),
                    );
                }
            }
            assert(self@ =~= old(self)@);
            // Well-formedness is preserved.
            assert forall|k: int|
                1 <= k < nn implies #[trigger] node_ok::<M>(vs1, ms1, k) by {
                if k == ii {
                    M::lemma_compose_apply(am, ms0[2 * ii], vs0[2 * ii]);
                    M::lemma_compose_apply(am, ms0[2 * ii + 1], vs0[2 * ii + 1]);
                    M::lemma_apply_op(
                        am,
                        M::apply_spec(ms0[2 * ii], vs0[2 * ii]),
                        M::apply_spec(ms0[2 * ii + 1], vs0[2 * ii + 1]),
                    );
                    assert(node_ok::<M>(vs0, ms0, ii));
                } else if 2 * k == ii || 2 * k + 1 == ii {
                    assert(k == ii / 2);
                    M::lemma_apply_id_map(M::apply_spec(am, vs0[ii]));
                    assert(node_ok::<M>(vs0, ms0, k));
                } else {
                    assert(node_ok::<M>(vs0, ms0, k));
                }
            }
        }
    }

    /// Recompute an internal node's stored value from its children,
    /// each taken under its pending transform.
    ///
    /// Only that slot changes, and the resolved leaf sequence does not.
    fn update(&mut self, i: usize)
        requires
            old(self).shape_wf(),
            1 <= i as int && (i as int) < old(self).spec_n(),
        ensures
            final(self).shape_wf(),
            final(self)@ == old(self)@,
            final(self).spec_n() == old(self).spec_n(),
            final(self).morphisms@ == old(self).morphisms@,
            final(self).values@ == old(self).values@.update(
                i as int,
                M::op_spec(
                    M::apply_spec(old(self).morphisms@[2 * (i as int)], old(self).values@[2 * (i as int)]),
                    M::apply_spec(
                        old(self).morphisms@[2 * (i as int) + 1],
                        old(self).values@[2 * (i as int) + 1],
                    ),
                ),
            ),
            node_ok::<M>(final(self).values@, final(self).morphisms@, i as int),
    {
        let len = self.values.len();
        proof {
            assert(2 * (i as int) + 1 < len);
        }
        let v1 = M::apply(&self.morphisms[2 * i], &self.values[2 * i]);
        let v2 = M::apply(&self.morphisms[2 * i + 1], &self.values[2 * i + 1]);
        let combined = M::op(&v1, &v2);
        self.values[i] = combined;
        proof {
            assert(self@ =~= old(self)@);
        }
    }

    /// Push every pending transform on the path from the root down to
    /// the buffer slot `x`: afterwards every ancestor of `x` carries a
    /// transform that acts as the identity.  If every ancestor of the
    /// ghost node `keep` was already in that state, it stays so.
    #[verifier::loop_isolation(false)]
    fn push_path(&mut self, x: usize, Ghost(keep): Ghost<int>)
        requires
            old(self).wf(),
            1 <= x < old(self).values@.len(),
            0 <= keep < old(self).values@.len(),
        ensures
            final(self).wf(),
            final(self)@ == old(self)@,
            final(self).values@.len() == old(self).values@.len(),
            final(self).spec_n() == old(self).spec_n(),
            forall|k: int| #[trigger] is_ancestor(k, x as int) ==> acts_as_id::<M>(
                final(self).morphisms@[k],
            ),
            (forall|k: int| #[trigger] is_ancestor(k, keep) ==> acts_as_id::<M>(
                old(self).morphisms@[k],
            )) ==> (forall|k: int| #[trigger] is_ancestor(k, keep) ==> acts_as_id::<M>(
                final(self).morphisms@[k],
            )),
    {
        let ghost keep_clean = forall|k: int| #[trigger] is_ancestor(k, keep) ==> acts_as_id::<M>(
            old(self).morphisms@[k],
        );
        let mut path: Vec<usize> = Vec::new();
        let mut j = x;
        while j >= 1
            invariant
                j < old(self).values@.len(),
                forall|i: int| 0 <= i < path@.len() ==> 1 <= #[trigger] path@[i] < old(
                    self,
                ).values@.len(),
                path@.len() >= 1 ==> path@[0] == x,
                forall|i: int| 0 <= i < path@.len() - 1 ==> #[trigger] path@[i + 1] == path@[i]
                    / 2,
                (path@.len() == 0 && j == x) || (path@.len() >= 1 && j == path@.last() / 2),
                forall|k: int| #[trigger] is_ancestor(k, x as int) ==> ((exists|s: int|
                    0 <= s < path@.len() && #[trigger] path@[s] == k) || (j >= 1 && is_ancestor(
                    k,
                    j as int,
                ))),
            decreases j,
        {
            let ghost plen = path@.len() as int;
            let ghost path0 = path@;
            path.push(j);
            proof {
                assert forall|k: int| #[trigger] is_ancestor(k, x as int) implies ((exists|s: int|
                    0 <= s < path@.len() && #[trigger] path@[s] == k) || (j / 2 >= 1
                    && is_ancestor(k, j as int / 2))) by {
                    if exists|s: int| 0 <= s < plen && #[trigger] path0[s] == k {
                        let s = choose|s: int| 0 <= s < plen && #[trigger] path0[s] == k;
                        assert(0 <= s < path@.len() && path@[s] == k);
                    } else {
                        assert(j >= 1 && is_ancestor(k, j as int));
                        if k == j {
                            assert(path@[plen] == k);
                        } else {
                            assert(is_ancestor(k, j as int / 2));
                            lemma_ancestor_le(k, j as int / 2);
                            assert(j as int / 2 >= 1);
                        }
                    }
                }
            }
            j /= 2;
        }
        let mut t = path.len();
        while t > 0
            invariant
                t <= path@.len(),
                self.wf(),
                self@ == old(self)@,
                self.values@.len() == old(self).values@.len(),
                self.spec_n() == old(self).spec_n(),
                forall|s: int|
                    t <= s < path@.len() ==> #[trigger] acts_as_id::<M>(
                        self.morphisms@[path@[s] as int],
                    ),
                keep_clean ==> forall|k: int| #[trigger] is_ancestor(k, keep) ==> acts_as_id::<M>(
                    self.morphisms@[k],
                ),
            decreases t,
        {
            t -= 1;
            let ghost ms_before = self.morphisms@;
            let q = path[t];
            self.push(q);
            proof {
                lemma_id_map_acts_as_id::<M>();
                assert forall|s: int|
                    t <= s < path@.len() implies #[trigger] acts_as_id::<M>(
                    self.morphisms@[path@[s] as int],
                ) by {
                    if s == t {
                        assert(self.morphisms@[q as int] == M::id_map_spec());
                    } else {
                        lemma_path_decreasing(path@, t as int, s);
                        assert(path@[s] < q);
                        assert(self.morphisms@[path@[s] as int] == ms_before[path@[s] as int]);
                    }
                }
                if keep_clean {
                    assert forall|k: int| #[trigger] is_ancestor(k, keep) implies acts_as_id::<M>(
                        self.morphisms@[k],
                    ) by {
                        lemma_ancestor_le(k, keep);
                        if k == q as int {
                            assert(self.morphisms@[k] == M::id_map_spec());
                        } else if k == 2 * (q as int) || k == 2 * (q as int) + 1 {
                            lemma_ancestor_chain(k, keep);
                            assert(is_ancestor(k / 2, keep));
                            assert(acts_as_id::<M>(ms_before[q as int]));
                            lemma_compose_acts_as_id::<M>(ms_before[q as int], ms_before[k]);
                        } else {
                            assert(self.morphisms@[k] == ms_before[k]);
                        }
                    }
                }
            }
        }
        proof {
            assert forall|k: int| #[trigger] is_ancestor(k, x as int) implies acts_as_id::<M>(
                self.morphisms@[k],
            ) by {
                lemma_ancestor_le(k, x as int);
                assert(exists|s: int| 0 <= s < path@.len() && #[trigger] path@[s] == k);
                let s = choose|s: int| 0 <= s < path@.len() && #[trigger] path@[s] == k;
                assert(acts_as_id::<M>(self.morphisms@[path@[s] as int]));
            }
        }
    }

    /// Recompute every node on the path from just above the buffer slot
    /// `x` up to the root, bottom-up.  Nodes in `exempt` are allowed to
    /// stay stale; everything else ends up consistent.
    fn update_path(&mut self, x: usize, Ghost(exempt): Ghost<Set<int>>)
        requires
            old(self).shape_wf(),
            acts_as_id::<M>(old(self).morphisms@[0]),
            old(self).spec_n() <= x < old(self).values@.len(),
            forall|k: int|
                1 <= k < old(self).spec_n() && !exempt.contains(k) && !is_ancestor(k, x as int)
                    ==> #[trigger] node_ok::<M>(old(self).values@, old(self).morphisms@, k),
        ensures
            final(self).shape_wf(),
            final(self)@ == old(self)@,
            final(self).spec_n() == old(self).spec_n(),
            final(self).values@.len() == old(self).values@.len(),
            final(self).morphisms@ == old(self).morphisms@,
            forall|k: int|
                1 <= k < old(self).spec_n() && !exempt.contains(k) ==> #[trigger] node_ok::<M>(
                    final(self).values@,
                    final(self).morphisms@,
                    k,
                ),
    {
        let n = self.values.len() / 2;
        let ghost leaf = x as int;
        let mut j = x / 2;
        proof {
            assert(is_ancestor(leaf, leaf));
            if j >= 1 {
                lemma_ancestor_chain(leaf, leaf);
            }
        }
        while j >= 1
            invariant
                self.shape_wf(),
                self@ == old(self)@,
                self.spec_n() == old(self).spec_n(),
                n == old(self).spec_n(),
                self.values@.len() == old(self).values@.len(),
                self.morphisms@ == old(self).morphisms@,
                j < n,
                j >= 1 ==> is_ancestor(j as int, leaf),
                forall|k: int|
                    1 <= k < n && !exempt.contains(k) && !(j >= 1 && is_ancestor(k, j as int))
                        ==> #[trigger] node_ok::<M>(self.values@, self.morphisms@, k),
            decreases j,
        {
            let ghost vs_before = self.values@;
            self.update(j);
            let ghost jj = j as int;
            proof {
                if jj / 2 >= 1 {
                    lemma_ancestor_chain(jj, leaf);
                }
                assert forall|k: int|
                    1 <= k < n && !exempt.contains(k) && !(jj / 2 >= 1 && is_ancestor(k, jj / 2))
                        implies #[trigger] node_ok::<M>(self.values@, self.morphisms@, k) by {
                    if k == jj {
                    } else {
                        if 2 * k == jj || 2 * k + 1 == jj {
                            assert(k == jj / 2);
                            assert(is_ancestor(k, k));
                            assert(false);
                        }
                        if is_ancestor(k, jj) {
                            assert(k != jj);
                            assert(is_ancestor(k, jj / 2));
                            assert(jj / 2 >= 1);
                            assert(false);
                        }
                        assert(node_ok::<M>(vs_before, self.morphisms@, k));
                    }
                }
            }
            j /= 2;
        }
    }

    /// One left step of the minimal-cover walk: compose `f` in front of
    /// the odd left boundary node, covering exactly its leaves.
    fn cover_step_left(
        &mut self,
        f: &M::Morphism,
        a: usize,
        b: usize,
        Ghost(view0): Ghost<Seq<M::Value>>,
        Ghost(a0): Ghost<int>,
        Ghost(b0): Ghost<int>,
        Ghost(pa): Ghost<int>,
        Ghost(l): Ghost<int>,
        Ghost(r): Ghost<int>,
    )
        requires
            old(self).shape_wf(),
            old(self).spec_n() >= 1,
            0 <= l < r <= old(self).spec_n(),
            a0 == old(self).spec_n() + l,
            b0 == old(self).spec_n() + r,
            a % 2 == 1,
            1 <= a,
            a < b,
            b <= 2 * old(self).spec_n(),
            b <= 2 * a,
            a == pa || a == pa + 1,
            0 <= pa,
            pa >= 1 ==> is_ancestor(pa, a0),
            view0.len() == old(self).spec_n(),
            forall|k: int|
                1 <= k < old(self).spec_n() && !is_ancestor(k, a0) && !is_ancestor(k, b0 - 1)
                    ==> #[trigger] node_ok::<M>(old(self).values@, old(self).morphisms@, k),
            forall|k: int|
                (is_ancestor(k, a0) || is_ancestor(k, b0 - 1)) && #[trigger] has_pending_leaf(
                    k,
                    old(self).spec_n(),
                    a as int,
                    b as int,
                ) ==> acts_as_id::<M>(old(self).morphisms@[k]),
            forall|j: int|
                0 <= j < old(self).spec_n() && #[trigger] covered_by(
                    a as int,
                    b as int,
                    old(self).spec_n() + j,
                ) ==> l <= j < r,
            old(self)@ == partial_view::<M>(view0, *f, l, r, a as int, b as int, old(self).spec_n()),
        ensures
            final(self).shape_wf(),
            final(self).spec_n() == old(self).spec_n(),
            final(self).values@ == old(self).values@,
            final(self).morphisms@.len() == old(self).morphisms@.len(),
            final(self).morphisms@[0] == old(self).morphisms@[0],
            forall|k: int|
                1 <= k < old(self).spec_n() && !is_ancestor(k, a0) && !is_ancestor(k, b0 - 1)
                    ==> #[trigger] node_ok::<M>(final(self).values@, final(self).morphisms@, k),
            forall|k: int|
                (is_ancestor(k, a0) || is_ancestor(k, b0 - 1)) && #[trigger] has_pending_leaf(
                    k,
                    old(self).spec_n(),
                    a as int + 1,
                    b as int,
                ) ==> acts_as_id::<M>(final(self).morphisms@[k]),
            forall|j: int|
                0 <= j < old(self).spec_n() && #[trigger] covered_by(
                    a as int + 1,
                    b as int,
                    old(self).spec_n() + j,
                ) ==> l <= j < r,
            final(self)@ == partial_view::<M>(
                view0,
                *f,
                l,
                r,
                a as int + 1,
                b as int,
                old(self).spec_n(),
            ),
    {
        let ghost n_i = self.spec_n();
        let ghost ms_before = self.morphisms@;
        let ghost vw_before = self@;
        let ghost c = a as int;
        proof {
            assert(c / 2 == pa / 2);
            if pa / 2 >= 1 {
                lemma_ancestor_chain(pa, a0);
            }
            lemma_leaf_below(c, n_i);
            let jc = choose|j: int| 0 <= j < n_i && #[trigger] is_ancestor(c, n_i + j);
            assert forall|k: int| #[trigger] is_ancestor(k, c) && k != c implies acts_as_id::<M>(
                self.morphisms@[k],
            ) by {
                assert(is_ancestor(k, c / 2));
                lemma_ancestor_le(k, c / 2);
                assert(is_ancestor(c / 2, a0));
                lemma_ancestor_transitive(k, c / 2, a0);
                lemma_ancestor_transitive(k, c, n_i + jc);
                assert(covered_by(a as int, b as int, n_i + jc));
                assert(has_pending_leaf(k, n_i, a as int, b as int));
            }
        }
        let nm = M::compose(f, &self.morphisms[a]);
        self.morphisms[a] = nm;
        proof {
            let msa = self.morphisms@;
            assert(msa == ms_before.update(c, M::compose_spec(*f, ms_before[c])));
            assert forall|j: int| 0 <= j < n_i implies self@[j] == (if is_ancestor(c, n_i + j) {
                M::apply_spec(*f, vw_before[j])
            } else {
                vw_before[j]
            }) by {
                lemma_compose_at_node::<M>(ms_before, self.values@, *f, c, n_i, j);
            }
            assert forall|k: int|
                1 <= k < n_i && !is_ancestor(k, a0) && !is_ancestor(k, b0 - 1) implies
                #[trigger] node_ok::<M>(self.values@, msa, k) by {
                if 2 * k == c || 2 * k + 1 == c {
                    assert(k == c / 2);
                    assert(is_ancestor(k, a0));
                } else {
                    assert(node_ok::<M>(self.values@, ms_before, k));
                }
            }
            assert forall|j: int| 0 <= j < n_i && #[trigger] is_ancestor(c, n_i + j) implies
                !covered_by(c + 1, b as int, n_i + j) by {
                if covered_by(c + 1, b as int, n_i + j) {
                    let c2 = choose|c2: int| c + 1 <= c2 < b && #[trigger] is_ancestor(c2, n_i + j);
                    lemma_ancestor_compare(c, c2, n_i + j);
                    lemma_no_ancestor_within(a as int, b as int, c, c2);
                }
            }
            assert forall|j: int| 0 <= j < n_i && !(#[trigger] is_ancestor(c, n_i + j)) implies
                covered_by(a as int, b as int, n_i + j) == covered_by(
                c + 1,
                b as int,
                n_i + j,
            ) by {
                if covered_by(a as int, b as int, n_i + j) {
                    let c2 = choose|c2: int| a <= c2 < b && #[trigger] is_ancestor(c2, n_i + j);
                    assert(c2 != c);
                    assert(covered_by(c + 1, b as int, n_i + j));
                }
                if covered_by(c + 1, b as int, n_i + j) {
                    let c2 = choose|c2: int| c + 1 <= c2 < b && #[trigger] is_ancestor(c2, n_i + j);
                    assert(covered_by(a as int, b as int, n_i + j));
                }
            }
            assert forall|j: int| 0 <= j < n_i implies self@[j] == (if l <= j < r
                && !(#[trigger] covered_by(c + 1, b as int, n_i + j)) {
                M::apply_spec(*f, view0[j])
            } else {
                view0[j]
            }) by {
                if is_ancestor(c, n_i + j) {
                    assert(covered_by(a as int, b as int, n_i + j));
                    assert(vw_before[j] == view0[j]);
                }
            }
            assert(self@ =~= partial_view::<M>(view0, *f, l, r, c + 1, b as int, n_i));
            assert forall|j: int|
                0 <= j < n_i && #[trigger] covered_by(c + 1, b as int, n_i + j) implies l <= j
                < r by {
                let c2 = choose|c2: int| c + 1 <= c2 < b && #[trigger] is_ancestor(c2, n_i + j);
                assert(covered_by(a as int, b as int, n_i + j));
            }
            assert forall|k: int|
                (is_ancestor(k, a0) || is_ancestor(k, b0 - 1)) && #[trigger] has_pending_leaf(
                    k,
                    n_i,
                    c + 1,
                    b as int,
                ) implies acts_as_id::<M>(msa[k]) by {
                let jp = choose|j: int|
                    0 <= j < n_i && #[trigger] is_ancestor(k, n_i + j) && covered_by(
                        c + 1,
                        b as int,
                        n_i + j,
                    );
                let c2 = choose|c2: int| c + 1 <= c2 < b && #[trigger] is_ancestor(c2, n_i + jp);
                assert(covered_by(a as int, b as int, n_i + jp));
                assert(has_pending_leaf(k, n_i, a as int, b as int));
                assert(acts_as_id::<M>(ms_before[k]));
                if k == c {
                    lemma_ancestor_compare(c, c2, n_i + jp);
                    lemma_no_ancestor_within(a as int, b as int, c, c2);
                }
                if is_ancestor(k, a0) {
                    lemma_ancestor_le(k, a0);
                } else {
                    lemma_ancestor_le(k, b0 - 1);
                }
                assert(msa[k] == ms_before[k]);
            }
        }
    }

    /// One right step of the minimal-cover walk: compose `f` in front
    /// of the node just below the odd right boundary, covering exactly
    /// its leaves.
    fn cover_step_right(
        &mut self,
        f: &M::Morphism,
        a: usize,
        b: usize,
        Ghost(view0): Ghost<Seq<M::Value>>,
        Ghost(a0): Ghost<int>,
        Ghost(b0): Ghost<int>,
        Ghost(qb): Ghost<int>,
        Ghost(l): Ghost<int>,
        Ghost(r): Ghost<int>,
    )
        requires
            old(self).shape_wf(),
            old(self).spec_n() >= 1,
            0 <= l < r <= old(self).spec_n(),
            a0 == old(self).spec_n() + l,
            b0 == old(self).spec_n() + r,
            b % 2 == 1,
            1 <= a,
            a < b,
            b <= 2 * old(self).spec_n(),
            b <= 2 * a,
            b == qb || b == qb + 1,
            0 <= qb,
            qb >= 1 ==> is_ancestor(qb, b0 - 1),
            view0.len() == old(self).spec_n(),
            forall|k: int|
                1 <= k < old(self).spec_n() && !is_ancestor(k, a0) && !is_ancestor(k, b0 - 1)
                    ==> #[trigger] node_ok::<M>(old(self).values@, old(self).morphisms@, k),
            forall|k: int|
                (is_ancestor(k, a0) || is_ancestor(k, b0 - 1)) && #[trigger] has_pending_leaf(
                    k,
                    old(self).spec_n(),
                    a as int,
                    b as int,
                ) ==> acts_as_id::<M>(old(self).morphisms@[k]),
            forall|j: int|
                0 <= j < old(self).spec_n() && #[trigger] covered_by(
                    a as int,
                    b as int,
                    old(self).spec_n() + j,
                ) ==> l <= j < r,
            old(self)@ == partial_view::<M>(view0, *f, l, r, a as int, b as int, old(self).spec_n()),
        ensures
            final(self).shape_wf(),
            final(self).spec_n() == old(self).spec_n(),
            final(self).values@ == old(self).values@,
            final(self).morphisms@.len() == old(self).morphisms@.len(),
            final(self).morphisms@[0] == old(self).morphisms@[0],
            forall|k: int|
                1 <= k < old(self).spec_n() && !is_ancestor(k, a0) && !is_ancestor(k, b0 - 1)
                    ==> #[trigger] node_ok::<M>(final(self).values@, final(self).morphisms@, k),
            forall|k: int|
                (is_ancestor(k, a0) || is_ancestor(k, b0 - 1)) && #[trigger] has_pending_leaf(
                    k,
                    old(self).spec_n(),
                    a as int,
                    b as int - 1,
                ) ==> acts_as_id::<M>(final(self).morphisms@[k]),
            forall|j: int|
                0 <= j < old(self).spec_n() && #[trigger] covered_by(
                    a as int,
                    b as int - 1,
                    old(self).spec_n() + j,
                ) ==> l <= j < r,
            final(self)@ == partial_view::<M>(
                view0,
                *f,
                l,
                r,
                a as int,
                b as int - 1,
                old(self).spec_n(),
            ),
    {
        let ghost n_i = self.spec_n();
        let ghost ms_before = self.morphisms@;
        let ghost vw_before = self@;
        let ghost c = b as int - 1;
        let ghost bo = b as int;
        let target = b - 1;
        proof {
            assert(c / 2 == qb / 2);
            if qb / 2 >= 1 {
                lemma_ancestor_chain(qb, b0 - 1);
            }
            lemma_leaf_below(c, n_i);
            let jc = choose|j: int| 0 <= j < n_i && #[trigger] is_ancestor(c, n_i + j);
            assert forall|k: int| #[trigger] is_ancestor(k, c) && k != c implies acts_as_id::<M>(
                self.morphisms@[k],
            ) by {
                assert(is_ancestor(k, c / 2));
                lemma_ancestor_le(k, c / 2);
                assert(is_ancestor(c / 2, b0 - 1));
                lemma_ancestor_transitive(k, c / 2, b0 - 1);
                lemma_ancestor_transitive(k, c, n_i + jc);
                assert(covered_by(a as int, bo, n_i + jc));
                assert(has_pending_leaf(k, n_i, a as int, bo));
            }
        }
        let nm = M::compose(f, &self.morphisms[target]);
        self.morphisms[target] = nm;
        proof {
            let msa = self.morphisms@;
            assert(msa == ms_before.update(c, M::compose_spec(*f, ms_before[c])));
            assert forall|j: int| 0 <= j < n_i implies self@[j] == (if is_ancestor(c, n_i + j) {
                M::apply_spec(*f, vw_before[j])
            } else {
                vw_before[j]
            }) by {
                lemma_compose_at_node::<M>(ms_before, self.values@, *f, c, n_i, j);
            }
            assert forall|k: int|
                1 <= k < n_i && !is_ancestor(k, a0) && !is_ancestor(k, b0 - 1) implies
                #[trigger] node_ok::<M>(self.values@, msa, k) by {
                if 2 * k == c || 2 * k + 1 == c {
                    assert(k == c / 2);
                    assert(is_ancestor(k, b0 - 1));
                } else {
                    assert(node_ok::<M>(self.values@, ms_before, k));
                }
            }
            assert forall|j: int| 0 <= j < n_i && #[trigger] is_ancestor(c, n_i + j) implies
                !covered_by(a as int, c, n_i + j) by {
                if covered_by(a as int, c, n_i + j) {
                    let c2 = choose|c2: int| a <= c2 < c && #[trigger] is_ancestor(c2, n_i + j);
                    lemma_ancestor_compare(c2, c, n_i + j);
                    lemma_no_ancestor_within(a as int, bo, c2, c);
                }
            }
            assert forall|j: int| 0 <= j < n_i && !(#[trigger] is_ancestor(c, n_i + j)) implies
                covered_by(a as int, bo, n_i + j) == covered_by(a as int, c, n_i + j) by {
                if covered_by(a as int, bo, n_i + j) {
                    let c2 = choose|c2: int| a <= c2 < bo && #[trigger] is_ancestor(c2, n_i + j);
                    assert(c2 != c);
                    assert(covered_by(a as int, c, n_i + j));
                }
                if covered_by(a as int, c, n_i + j) {
                    let c2 = choose|c2: int| a <= c2 < c && #[trigger] is_ancestor(c2, n_i + j);
                    assert(covered_by(a as int, bo, n_i + j));
                }
            }
            assert forall|j: int| 0 <= j < n_i implies self@[j] == (if l <= j < r
                && !(#[trigger] covered_by(a as int, c, n_i + j)) {
                M::apply_spec(*f, view0[j])
            } else {
                view0[j]
            }) by {
                if is_ancestor(c, n_i + j) {
                    assert(covered_by(a as int, bo, n_i + j));
                    assert(vw_before[j] == view0[j]);
                }
            }
            assert(self@ =~= partial_view::<M>(view0, *f, l, r, a as int, c, n_i));
            assert forall|j: int|
                0 <= j < n_i && #[trigger] covered_by(a as int, c, n_i + j) implies l <= j < r by {
                let c2 = choose|c2: int| a <= c2 < c && #[trigger] is_ancestor(c2, n_i + j);
                assert(covered_by(a as int, bo, n_i + j));
            }
            assert forall|k: int|
                (is_ancestor(k, a0) || is_ancestor(k, b0 - 1)) && #[trigger] has_pending_leaf(
                    k,
                    n_i,
                    a as int,
                    c,
                ) implies acts_as_id::<M>(msa[k]) by {
                let jp = choose|j: int|
                    0 <= j < n_i && #[trigger] is_ancestor(k, n_i + j) && covered_by(
                        a as int,
                        c,
                        n_i + j,
                    );
                let c2 = choose|c2: int| a <= c2 < c && #[trigger] is_ancestor(c2, n_i + jp);
                assert(covered_by(a as int, bo, n_i + jp));
                assert(has_pending_leaf(k, n_i, a as int, bo));
                assert(acts_as_id::<M>(ms_before[k]));
                if k == c {
                    lemma_ancestor_compare(c2, c, n_i + jp);
                    lemma_no_ancestor_within(a as int, bo, c2, c);
                }
                if is_ancestor(k, a0) {
                    lemma_ancestor_le(k, a0);
                } else {
                    lemma_ancestor_le(k, b0 - 1);
                }
                assert(msa[k] == ms_before[k]);
            }
        }
    }

    /// Compose `f` in front of the pending transform of every node in
    /// the minimal cover of `[l, r)`, after cleaning the boundary paths
    /// and before recomputing their ancestors: afterwards the resolved
    /// leaves of `[l, r)` each carry `f`'s effect and every other leaf
    /// is untouched.
    ///
    /// `l == r` leaves the tree exactly as it was, for any `l`;
    /// otherwise the range must satisfy `l < r <= N`, else
    /// `InvalidRange` is returned and nothing changes.
    #[verifier::loop_isolation(false)]
    #[verifier::rlimit(100)]
    pub fn range_apply(&mut self, l: usize, r: usize, f: &M::Morphism) -> (result: Result<
        (),
        SegtreeError,
    >)
        requires
            old(self).wf(),
        ensures
            final(self).wf(),
            final(self)@.len() == old(self)@.len(),
            match result {
                Ok(()) => (l == r || (l < r && r <= old(self)@.len())) && final(self)@ == Seq::new(
                    old(self)@.len(),
                    |j: int|
                        if l <= j < r {
                            M::apply_spec(*f, old(self)@[j])
                        } else {
                            old(self)@[j]
                        },
                ) && (l == r ==> *final(self) == *old(self)),
                Err(e) => e == SegtreeError::InvalidRange && l != r && (l > r || r > old(
                    self,
                )@.len()) && *final(self) == *old(self),
            },
    {
        proof {
            self.lemma_view_len();
        }
        if l == r {
            proof {
                assert(self@ =~= Seq::new(
                    old(self)@.len(),
                    |j: int|
                        if l <= j < r {
                            M::apply_spec(*f, old(self)@[j])
                        } else {
                            old(self)@[j]
                        },
                ));
            }
            return Ok(());
        }
        let n = self.values.len() / 2;
        if l > r || r > n {
            return Err(SegtreeError::InvalidRange);
        }
        let a0 = n + l;
        let b0 = n + r;
        self.push_path(a0, Ghost(0int));
        self.push_path(b0 - 1, Ghost(a0 as int));
        let ghost view0 = self@;
        let ghost n_i = n as int;
        proof {
            assert forall|j: int| 0 <= j < n_i implies #[trigger] covered_by(
                a0 as int,
                b0 as int,
                n_i + j,
            ) == (l <= j < r) by {
                lemma_cover_at_leaves(n_i, l as int, r as int, j);
            }
            assert(self@ =~= partial_view::<M>(
                view0,
                *f,
                l as int,
                r as int,
                a0 as int,
                b0 as int,
                n_i,
            ));
        }
        let mut a = a0;
        let mut b = b0;
        let ghost mut pa: int = a0 as int;
        let ghost mut qb: int = b0 as int - 1;
        while a < b
            invariant
                self.shape_wf(),
                acts_as_id::<M>(self.morphisms@[0]),
                self.spec_n() == n,
                self.values@.len() == 2 * n,
                self.morphisms@.len() == 2 * n,
                1 <= a,
                a <= b,
                b <= 2 * n,
                b <= 2 * a,
                a == pa || a == pa + 1,
                b == qb || b == qb + 1,
                0 <= pa,
                0 <= qb,
                pa >= 1 ==> is_ancestor(pa, a0 as int),
                qb >= 1 ==> is_ancestor(qb, b0 as int - 1),
                forall|k: int|
                    1 <= k < n && !is_ancestor(k, a0 as int) && !is_ancestor(k, b0 as int - 1)
                        ==> #[trigger] node_ok::<M>(self.values@, self.morphisms@, k),
                forall|k: int|
                    (is_ancestor(k, a0 as int) || is_ancestor(k, b0 as int - 1))
                        && #[trigger] has_pending_leaf(k, n_i, a as int, b as int)
                        ==> acts_as_id::<M>(self.morphisms@[k]),
                forall|j: int|
                    0 <= j < n_i && #[trigger] covered_by(a as int, b as int, n_i + j) ==> l <= j
                        < r,
                self@ == partial_view::<M>(view0, *f, l as int, r as int, a as int, b as int, n_i),
            decreases b - a,
        {
            if a % 2 == 1 {
                self.cover_step_left(
                    f,
                    a,
                    b,
                    Ghost(view0),
                    Ghost(a0 as int),
                    Ghost(b0 as int),
                    Ghost(pa),
                    Ghost(l as int),
                    Ghost(r as int),
                );
                a += 1;
            }
            if b % 2 == 1 {
                proof {
                    if a == b {
                        assert(a % 2 == 1 && b % 2 == 1);
                    }
                }
                self.cover_step_right(
                    f,
                    a,
                    b,
                    Ghost(view0),
                    Ghost(a0 as int),
                    Ghost(b0 as int),
                    Ghost(qb),
                    Ghost(l as int),
                    Ghost(r as int),
                );
                b -= 1;
            }
            proof {
                if pa / 2 >= 1 {
                    lemma_ancestor_chain(pa, a0 as int);
                }
                if qb / 2 >= 1 {
                    lemma_ancestor_chain(qb, b0 as int - 1);
                }
                assert forall|j: int| 0 <= j < n_i implies #[trigger] covered_by(
                    a as int / 2,
                    b as int / 2,
                    n_i + j,
                ) == covered_by(a as int, b as int, n_i + j) by {
                    if a < b {
                        lemma_cover_halve(a as int, b as int, n_i + j, n_i);
                    } else {
                        if covered_by(a as int, b as int, n_i + j) {
                            let c2 = choose|c2: int|
                                a <= c2 < b && #[trigger] is_ancestor(c2, n_i + j);
                        }
                        if covered_by(a as int / 2, b as int / 2, n_i + j) {
                            let c2 = choose|c2: int|
                                a as int / 2 <= c2 < b as int / 2 && #[trigger] is_ancestor(
                                    c2,
                                    n_i + j,
                                );
                        }
                    }
                }
                assert forall|k: int|
                    (is_ancestor(k, a0 as int) || is_ancestor(k, b0 as int - 1))
                        && #[trigger] has_pending_leaf(k, n_i, a as int / 2, b as int / 2) implies
                    acts_as_id::<M>(self.morphisms@[k]) by {
                    let jp = choose|j: int|
                        0 <= j < n_i && #[trigger] is_ancestor(k, n_i + j) && covered_by(
                            a as int / 2,
                            b as int / 2,
                            n_i + j,
                        );
                    assert(covered_by(a as int, b as int, n_i + jp));
                    assert(has_pending_leaf(k, n_i, a as int, b as int));
                }
                assert forall|j: int|
                    0 <= j < n_i && #[trigger] covered_by(
                        a as int / 2,
                        b as int / 2,
                        n_i + j,
                    ) implies l <= j < r by {
                    assert(covered_by(a as int, b as int, n_i + j));
                }
                pa = pa / 2;
                qb = qb / 2;
            }
            let ghost aa = a as int;
            let ghost bb = b as int;
            a /= 2;
            b /= 2;
            proof {
                assert forall|j: int| 0 <= j < n_i implies self@[j] == (if l <= j < r
                    && !(#[trigger] covered_by(a as int, b as int, n_i + j)) {
                    M::apply_spec(*f, view0[j])
                } else {
                    view0[j]
                }) by {
                    assert(a as int == aa / 2 && b as int == bb / 2);
                    assert(covered_by(aa / 2, bb / 2, n_i + j) == covered_by(aa, bb, n_i + j));
                    assert(self@[j] == (if l <= j < r && !covered_by(aa, bb, n_i + j) {
                        M::apply_spec(*f, view0[j])
                    } else {
                        view0[j]
                    }));
                }
                assert(self@ =~= partial_view::<M>(
                    view0,
                    *f,
                    l as int,
                    r as int,
                    a as int,
                    b as int,
                    n_i,
                ));
            }
        }
        proof {
            assert forall|j: int| 0 <= j < n_i implies !(#[trigger] covered_by(
                a as int,
                b as int,
                n_i + j,
            )) by {
                if covered_by(a as int, b as int, n_i + j) {
                    let c2 = choose|c2: int| a <= c2 < b && #[trigger] is_ancestor(c2, n_i + j);
                }
            }
            assert forall|j: int| 0 <= j < n_i implies self@[j] == (if l <= j < r {
                M::apply_spec(*f, old(self)@[j])
            } else {
                old(self)@[j]
            }) by {
                assert(!covered_by(a as int, b as int, n_i + j));
                assert(view0[j] == old(self)@[j]);
            }
        }
        let ghost mid_view = self@;
        let ghost exempt = Set::new(|k: int| is_ancestor(k, b0 as int - 1));
        self.update_path(a0, Ghost(exempt));
        self.update_path(b0 - 1, Ghost(Set::empty()));
        proof {
            assert(self.wf());
            assert(self@ == mid_view);
            assert(self@ =~= Seq::new(
                old(self)@.len(),
                |j: int|
                    if l <= j < r {
                        M::apply_spec(*f, old(self)@[j])
                    } else {
                        old(self)@[j]
                    },
            ));
        }
        Ok(())
    }

    /// Fold the resolved leaves of `[l, r)` left to right under the
    /// monoid, cleaning and recomputing the boundary paths on the way;
    /// the resolved leaf sequence itself is unchanged.
    ///
    /// `l == r` yields the identity and leaves the tree exactly as it
    /// was, for any `l`; otherwise the range must satisfy `l < r <= N`,
    /// else `InvalidRange` is returned and nothing changes.
    #[verifier::loop_isolation(false)]
    #[verifier::rlimit(100)]
    pub fn fold(&mut self, l: usize, r: usize) -> (result: Result<M::Value, SegtreeError>)
        requires
            old(self).wf(),
        ensures
            final(self).wf(),
            final(self)@ == old(self)@,
            match result {
                Ok(v) => (l == r || (l < r && r <= old(self)@.len())) && (l == r ==> v
                    == M::id_spec() && *final(self) == *old(self)) && (l < r ==> v
                    == fold_value::<M>(old(self)@.subrange(l as int, r as int))),
                Err(e) => e == SegtreeError::InvalidRange && l != r && (l > r || r > old(
                    self,
                )@.len()) && *final(self) == *old(self),
            },
    {
        proof {
            self.lemma_view_len();
        }
        if l == r {
            return Ok(M::id());
        }
        let n = self.values.len() / 2;
        if l > r || r > n {
            return Err(SegtreeError::InvalidRange);
        }
        let a0 = n + l;
        let b0 = n + r;
        self.push_path(a0, Ghost(0int));
        self.push_path(b0 - 1, Ghost(a0 as int));
        self.update_path(a0, Ghost(Set::empty()));
        self.update_path(b0 - 1, Ghost(Set::empty()));
        let ghost n_i = n as int;
        let ghost vs = self.values@;
        let ghost ms = self.morphisms@;
        proof {
            lemma_true_range_band::<M>(vs, ms, n_i, l as int, r as int);
            assert(true_range::<M>(vs, ms, n_i, a0 as int, b0 as int) =~= self@.subrange(
                l as int,
                r as int,
            ));
        }
        let mut a = a0;
        let mut b = b0;
        let mut left = M::id();
        let mut right = M::id();
        let ghost mut la: Seq<M::Value> = Seq::empty();
        let ghost mut ra: Seq<M::Value> = Seq::empty();
        let ghost mut pa: int = a0 as int;
        let ghost mut qb: int = b0 as int - 1;
        proof {
            lemma_seq_empty_unit(true_range::<M>(vs, ms, n_i, a as int, b as int));
            assert(fold_value::<M>(la) == M::id_spec());
        }
        while a < b
            invariant
                self.wf(),
                vs == self.values@,
                ms == self.morphisms@,
                self.spec_n() == n,
                self.values@.len() == 2 * n,
                self.morphisms@.len() == 2 * n,
                1 <= a,
                a <= b,
                b <= 2 * n,
                a == pa || a == pa + 1,
                b == qb || b == qb + 1,
                0 <= pa,
                0 <= qb,
                pa >= 1 ==> is_ancestor(pa, a0 as int),
                qb >= 1 ==> is_ancestor(qb, b0 as int - 1),
                forall|k: int| #[trigger] is_ancestor(k, a0 as int) ==> acts_as_id::<M>(ms[k]),
                forall|k: int| #[trigger] is_ancestor(k, b0 as int - 1) ==> acts_as_id::<M>(
                    ms[k],
                ),
                left == fold_value::<M>(la),
                right == fold_value::<M>(ra),
                la + true_range::<M>(vs, ms, n_i, a as int, b as int) + ra == self@.subrange(
                    l as int,
                    r as int,
                ),
            decreases b - a,
        {
            if a % 2 == 1 {
                let ghost c = a as int;
                proof {
                    lemma_cover_contribution::<M>(vs, ms, n_i, c, pa, a0 as int);
                    lemma_fold_value_concat::<M>(la, true_view::<M>(vs, ms, n_i, c));
                }
                let t = M::apply(&self.morphisms[a], &self.values[a]);
                left = M::op(&left, &t);
                proof {
                    assert(true_range::<M>(vs, ms, n_i, c, b as int) == true_view::<M>(
                        vs,
                        ms,
                        n_i,
                        c,
                    ) + true_range::<M>(vs, ms, n_i, c + 1, b as int));
                    lemma_seq_assoc(
                        la,
                        true_view::<M>(vs, ms, n_i, c),
                        true_range::<M>(vs, ms, n_i, c + 1, b as int),
                    );
                    la = la + true_view::<M>(vs, ms, n_i, c);
                }
                a += 1;
            }
            if b % 2 == 1 {
                b -= 1;
                let ghost c = b as int;
                proof {
                    lemma_cover_contribution::<M>(vs, ms, n_i, c, qb, b0 as int - 1);
                    lemma_true_range_last::<M>(vs, ms, n_i, a as int, c + 1);
                    lemma_fold_value_concat::<M>(true_view::<M>(vs, ms, n_i, c), ra);
                }
                let t = M::apply(&self.morphisms[b], &self.values[b]);
                right = M::op(&t, &right);
                proof {
                    let tvc = true_view::<M>(vs, ms, n_i, c);
                    let rng = true_range::<M>(vs, ms, n_i, a as int, c);
                    lemma_seq_assoc(la + rng, tvc, ra);
                    lemma_seq_assoc(la, rng, tvc);
                    ra = tvc + ra;
                }
            }
            proof {
                if pa / 2 >= 1 {
                    lemma_ancestor_chain(pa, a0 as int);
                }
                if qb / 2 >= 1 {
                    lemma_ancestor_chain(qb, b0 as int - 1);
                }
                if a < b {
                    lemma_true_range_halve::<M>(vs, ms, n_i, a as int, b as int);
                } else {
                    assert(true_range::<M>(vs, ms, n_i, a as int, b as int)
                        =~= Seq::<M::Value>::empty());
                    assert(true_range::<M>(vs, ms, n_i, a as int / 2, b as int / 2)
                        =~= Seq::<M::Value>::empty());
                }
                pa = pa / 2;
                qb = qb / 2;
            }
            a /= 2;
            b /= 2;
        }
        proof {
            assert(true_range::<M>(vs, ms, n_i, a as int, b as int) =~= Seq::<M::Value>::empty());
            lemma_seq_empty_unit(la);
            lemma_fold_value_concat::<M>(la, ra);
        }
        Ok(M::op(&left, &right))
    }
}

} // verus!
