//! A disjoint-set forest.  A non-negative entry is a parent pointer and
//! a negative entry marks a root, storing the negated size of its set.
//!
//! Parents always point to strictly smaller indices, so chasing parents
//! terminates; when two sets are united, the root with the larger index
//! is attached below the root with the smaller one.

use vstd::prelude::*;

verus! {

/// Parent pointers only point downward.
pub open spec fn uf_parents_wf(s: Seq<i64>) -> bool {
    forall|i: int| 0 <= i < s.len() && #[trigger] s[i] >= 0 ==> s[i] < i
}

/// The total weight of the first `m` entries: each root contributes the
/// size of its set.
pub open spec fn uf_weight(s: Seq<i64>, m: int) -> int
    decreases m,
{
    if m <= 0 {
        0
    } else {
        uf_weight(s, m - 1) + (if s[m - 1] < 0 {
            -s[m - 1]
        } else {
            0
        })
    }
}

/// The number of roots among the first `m` entries.
pub open spec fn uf_roots(s: Seq<i64>, m: int) -> int
    decreases m,
{
    if m <= 0 {
        0
    } else {
        uf_roots(s, m - 1) + (if s[m - 1] < 0 {
            1int
        } else {
            0int
        })
    }
}

/// The representative of `v`: follow parent pointers to a root.
pub open spec fn uf_root(s: Seq<i64>, v: int) -> int
    decreases v,
{
    if 0 <= v < s.len() && s[v] >= 0 && s[v] < v {
        uf_root(s, s[v] as int)
    } else {
        v
    }
}

/// Partial weights are non-negative.
proof fn lemma_weight_nonneg(s: Seq<i64>, m: int)
    ensures
        uf_weight(s, m) >= 0,
    decreases m,
{
    if m > 0 {
        lemma_weight_nonneg(s, m - 1);
    }
}

/// One root's weight is at most the total weight.
proof fn lemma_weight_term(s: Seq<i64>, i: int, m: int)
    requires
        0 <= i < m,
        s[i] < 0,
    ensures
        -s[i] <= uf_weight(s, m),
    decreases m,
{
    if i == m - 1 {
        lemma_weight_nonneg(s, m - 1);
    } else {
        lemma_weight_term(s, i, m - 1);
    }
}

/// Two distinct roots' weights together are at most the total weight.
proof fn lemma_weight_two_terms(s: Seq<i64>, i: int, j: int, m: int)
    requires
        0 <= i < j < m,
        s[i] < 0,
        s[j] < 0,
    ensures
        -s[i] + -s[j] <= uf_weight(s, m),
    decreases m,
{
    if j == m - 1 {
        lemma_weight_term(s, i, m - 1);
    } else {
        lemma_weight_two_terms(s, i, j, m - 1);
    }
}

/// How a single overwrite moves the total weight.
proof fn lemma_weight_update(s: Seq<i64>, k: int, x: i64, m: int)
    requires
        0 <= k < s.len(),
        m <= s.len(),
    ensures
        uf_weight(s.update(k, x), m) == uf_weight(s, m) + (if k < m {
            (if x < 0 {
                -x
            } else {
                0
            }) - (if s[k] < 0 {
                -s[k]
            } else {
                0
            })
        } else {
            0
        }),
    decreases m,
{
    if m > 0 {
        lemma_weight_update(s, k, x, m - 1);
    }
}

/// How a single overwrite moves the root count.
proof fn lemma_roots_update(s: Seq<i64>, k: int, x: i64, m: int)
    requires
        0 <= k < s.len(),
        m <= s.len(),
    ensures
        uf_roots(s.update(k, x), m) == uf_roots(s, m) + (if k < m {
            (if x < 0 {
                1int
            } else {
                0int
            }) - (if s[k] < 0 {
                1int
            } else {
                0int
            })
        } else {
            0int
        }),
    decreases m,
{
    if m > 0 {
        lemma_roots_update(s, k, x, m - 1);
    }
}

/// Two distinct roots make the root count at least two.
proof fn lemma_roots_two(s: Seq<i64>, i: int, j: int, m: int)
    requires
        0 <= i < j < m,
        s[i] < 0,
        s[j] < 0,
    ensures
        uf_roots(s, m) >= 2,
    decreases m,
{
    if j == m - 1 {
        lemma_roots_one(s, i, m - 1);
    } else {
        lemma_roots_two(s, i, j, m - 1);
    }
}

/// A root makes the root count at least one, and counts never drop.
proof fn lemma_roots_one(s: Seq<i64>, i: int, m: int)
    requires
        0 <= i < m,
        s[i] < 0,
    ensures
        uf_roots(s, m) >= 1,
    decreases m,
{
    if i < m - 1 {
        lemma_roots_one(s, i, m - 1);
    } else {
        lemma_roots_nonneg(s, m - 1);
    }
}

/// Root counts are non-negative.
proof fn lemma_roots_nonneg(s: Seq<i64>, m: int)
    ensures
        uf_roots(s, m) >= 0,
    decreases m,
{
    if m > 0 {
        lemma_roots_nonneg(s, m - 1);
    }
}

/// After attaching root `big` below root `small`, every element whose
/// representative was one of the two now answers to `small`, and no
/// other representative moves.
proof fn lemma_root_after_merge(s: Seq<i64>, big: int, small: int, j: int)
    requires
        uf_parents_wf(s),
        0 <= small < big < s.len(),
        s[big] < 0,
        s[small] < 0,
        -s[small] - s[big] <= i64::MAX,
        s.len() <= 0x7FFF_FFFF_FFFF_FFFF,
        0 <= j < s.len(),
    ensures
        ({
            let s2 = s.update(small, (s[small] + s[big]) as i64).update(big, small as i64);
            uf_root(s2, j) == if uf_root(s, j) == big || uf_root(s, j) == small {
                small
            } else {
                uf_root(s, j)
            }
        }),
    decreases j,
{
    let s2 = s.update(small, (s[small] + s[big]) as i64).update(big, small as i64);
    if j == big {
        assert(s2[big] == small);
        assert(uf_root(s2, big) == uf_root(s2, small));
        assert(s2[small] == (s[small] + s[big]) as i64);
        assert(s2[small] < 0);
        assert(uf_root(s2, small) == small);
    } else if j == small {
        assert(s2[small] < 0);
    } else {
        if s[j] >= 0 {
            lemma_root_after_merge(s, big, small, s[j] as int);
            assert(s2[j] == s[j]);
        } else {
            assert(uf_root(s, j) == j);
            assert(uf_root(s2, j) == j);
        }
    }
}

/// The disjoint-set structure.
pub struct UnionFind {
    values: Vec<i64>,
    count: usize,
}

impl UnionFind {
    /// The number of elements.
    pub closed spec fn spec_len(&self) -> int {
        self.values@.len() as int
    }

    /// The representative of element `v`.
    pub closed spec fn spec_root(&self, v: int) -> int {
        uf_root(self.values@, v)
    }

    /// The stored size of the set whose root is `r`.
    pub closed spec fn spec_size_at(&self, r: int) -> int {
        -self.values@[r]
    }

    /// Well-formedness: downward parent pointers, total weight equal to
    /// the number of elements, and an accurate root count.
    pub closed spec fn wf(&self) -> bool {
        &&& uf_parents_wf(self.values@)
        &&& uf_weight(self.values@, self.spec_len()) == self.spec_len()
        &&& self.count == uf_roots(self.values@, self.spec_len())
        &&& self.values@.len() <= 0x7FFF_FFFF_FFFF_FFFF
    }

    /// Create `n` isolated elements.
    #[verifier::loop_isolation(false)]
    pub fn new(n: usize) -> (r: Self)
        requires
            n <= 0x7FFF_FFFF_FFFF_FFFF,
        ensures
            r.wf(),
            r.spec_len() == n,
            forall|v: int| 0 <= v < n ==> #[trigger] r.spec_root(v) == v,
            r.spec_count() == n,
    {
        let mut values: Vec<i64> = Vec::new();
        let mut i: usize = 0;
        while i < n
            invariant
                i <= n,
                values@.len() == i,
                forall|k: int| 0 <= k < i ==> #[trigger] values@[k] == -1,
                uf_weight(values@, i as int) == i,
                uf_roots(values@, i as int) == i,
            decreases n - i,
        {
            let ghost before = values@;
            values.push(-1);
            proof {
                lemma_weight_prefix(before, values@, i as int);
                lemma_roots_prefix(before, values@, i as int);
            }
            i += 1;
        }
        let uf = UnionFind { values, count: n };
        proof {
            assert forall|v: int| 0 <= v < n implies #[trigger] uf.spec_root(v) == v by {
            }
        }
        uf
    }

    /// The number of disjoint sets.
    pub closed spec fn spec_count(&self) -> int {
        self.count as int
    }

    /// Find the representative of `v`.
    #[verifier::loop_isolation(false)]
    fn root(&self, v: usize) -> (r: usize)
        requires
            self.wf(),
            v < self.spec_len(),
        ensures
            r == self.spec_root(v as int),
            r < self.spec_len(),
            self.values@[r as int] < 0,
    {
        let mut cur = v;
        while self.values[cur] >= 0
            invariant
                cur < self.spec_len(),
                uf_root(self.values@, cur as int) == self.spec_root(v as int),
            decreases cur,
        {
            cur = self.values[cur] as usize;
        }
        cur
    }

    /// Unite the sets of `v` and `w`; answer whether they were
    /// previously disjoint.  The united set's representative is the
    /// smaller-indexed of the two old representatives.
    #[verifier::loop_isolation(false)]
    pub fn unite(&mut self, v: usize, w: usize) -> (r: bool)
        requires
            old(self).wf(),
            v < old(self).spec_len(),
            w < old(self).spec_len(),
        ensures
            final(self).wf(),
            final(self).spec_len() == old(self).spec_len(),
            r == (old(self).spec_root(v as int) != old(self).spec_root(w as int)),
            !r ==> *final(self) == *old(self),
            r ==> final(self).spec_count() == old(self).spec_count() - 1,
            r ==> final(self).spec_size_at(
                if old(self).spec_root(v as int) <= old(self).spec_root(w as int) {
                    old(self).spec_root(v as int)
                } else {
                    old(self).spec_root(w as int)
                },
            ) == old(self).spec_size_at(old(self).spec_root(v as int)) + old(self).spec_size_at(
                old(self).spec_root(w as int),
            ),
            r ==> forall|j: int|
                0 <= j < old(self).spec_len() ==> final(self).spec_root(j) == (
                if old(self).spec_root(j) == old(self).spec_root(v as int) || old(self).spec_root(
                    j,
                ) == old(self).spec_root(w as int) {
                    if old(self).spec_root(v as int) <= old(self).spec_root(w as int) {
                        old(self).spec_root(v as int)
                    } else {
                        old(self).spec_root(w as int)
                    }
                } else {
                    old(self).spec_root(j)
                }),
            !r ==> final(self).spec_count() == old(self).spec_count(),
    {
        let rv = self.root(v);
        let rw = self.root(w);
        if rv == rw {
            return false;
        }
        let small = if rv < rw {
            rv
        } else {
            rw
        };
        let big = if rv < rw {
            rw
        } else {
            rv
        };
        proof {
            lemma_weight_two_terms(self.values@, small as int, big as int, self.spec_len());
            lemma_roots_two(self.values@, small as int, big as int, self.spec_len());
        }
        let merged = self.values[small] + self.values[big];
        let ghost s0 = self.values@;
        self.values[small] = merged;
        self.values[big] = small as i64;
        self.count = self.count - 1;
        proof {
            let s2 = self.values@;
            assert(s2 =~= s0.update(small as int, (s0[small as int] + s0[big as int]) as i64)
                .update(big as int, small as i64));
            lemma_weight_update(s0, small as int, merged, s0.len() as int);
            lemma_weight_update(
                s0.update(small as int, merged),
                big as int,
                small as i64,
                s0.len() as int,
            );
            lemma_roots_update(s0, small as int, merged, s0.len() as int);
            lemma_roots_update(
                s0.update(small as int, merged),
                big as int,
                small as i64,
                s0.len() as int,
            );
            assert forall|j: int| 0 <= j < s0.len() implies #[trigger] uf_root(s2, j) == (
            if uf_root(s0, j) == rv || uf_root(s0, j) == rw {
                small as int
            } else {
                uf_root(s0, j)
            }) by {
                lemma_root_after_merge(s0, big as int, small as int, j);
            }
        }
        true
    }

    /// Answer whether `v` and `w` are in one set.
    pub fn is_same(&self, v: usize, w: usize) -> (r: bool)
        requires
            self.wf(),
            v < self.spec_len(),
            w < self.spec_len(),
        ensures
            r == (self.spec_root(v as int) == self.spec_root(w as int)),
    {
        let rv = self.root(v);
        let rw = self.root(w);
        rv == rw
    }

    /// The size of the set containing `v`, as recorded at its root.
    pub fn size(&self, v: usize) -> (r: usize)
        requires
            self.wf(),
            v < self.spec_len(),
        ensures
            r == self.spec_size_at(self.spec_root(v as int)),
            r >= 1,
    {
        let rt = self.root(v);
        let n = self.values.len();
        proof {
            lemma_weight_term(self.values@, rt as int, self.spec_len());
            assert(self.values@[rt as int] < 0);
            assert(-self.values@[rt as int] <= n);
        }
        (-self.values[rt]) as usize
    }

    /// The number of disjoint sets.
    pub fn count(&self) -> (r: usize)
        requires
            self.wf(),
        ensures
            r == self.spec_count(),
    {
        self.count
    }
}

/// A weight over a prefix ignores everything past the prefix.
proof fn lemma_weight_prefix(s1: Seq<i64>, s2: Seq<i64>, m: int)
    requires
        m <= s1.len(),
        m <= s2.len(),
        forall|k: int| 0 <= k < m ==> s1[k] == s2[k],
    ensures
        uf_weight(s1, m) == uf_weight(s2, m),
    decreases m,
{
    if m > 0 {
        lemma_weight_prefix(s1, s2, m - 1);
    }
}

/// A root count over a prefix ignores everything past the prefix.
proof fn lemma_roots_prefix(s1: Seq<i64>, s2: Seq<i64>, m: int)
    requires
        m <= s1.len(),
        m <= s2.len(),
        forall|k: int| 0 <= k < m ==> s1[k] == s2[k],
    ensures
        uf_roots(s1, m) == uf_roots(s2, m),
    decreases m,
{
    if m > 0 {
        lemma_roots_prefix(s1, s2, m - 1);
    }
}

} // verus!
