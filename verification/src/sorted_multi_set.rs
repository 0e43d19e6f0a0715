//! An ordered multiset of `i64` keys, kept as a sequence of non-empty
//! sorted chunks (square-root decomposition).  Binary searches inside a
//! chunk are done by the `superslice` crate.
//!
//! The abstraction of the structure is the sorted sequence of all its
//! elements, chunks concatenated in order.

use vstd::prelude::*;
use vstd::seq_lib::group_to_multiset_ensures;
use superslice::Ext;

verus! {

/// How many chunks a freshly built structure aims for, squared.
pub const BUCKET_RATIO: usize = 16;

/// A chunk longer than this multiple of the chunk count is split.
pub const SPLIT_RATIO: usize = 24;

/// The sequence is weakly increasing.
pub open spec fn sorted_seq(s: Seq<i64>) -> bool {
    forall|i: int, j: int| 0 <= i <= j < s.len() ==> s[i] <= s[j]
}

/// The concatenation of the chunk contents from chunk `i` on.
pub open spec fn model_from(vs: Seq<Vec<i64>>, i: int) -> Seq<i64>
    decreases vs.len() - i,
{
    if i < 0 || i >= vs.len() {
        Seq::empty()
    } else {
        vs[i]@ + model_from(vs, i + 1)
    }
}

/// The concatenation of the first `k` chunk contents.
pub open spec fn model_upto(vs: Seq<Vec<i64>>, k: int) -> Seq<i64>
    decreases k,
{
    if k <= 0 {
        Seq::empty()
    } else {
        model_upto(vs, k - 1) + vs[k - 1]@
    }
}

/// The whole model splits at any chunk boundary.
pub proof fn lemma_model_split(vs: Seq<Vec<i64>>, k: int)
    requires
        0 <= k <= vs.len(),
    ensures
        model_from(vs, 0) == model_upto(vs, k) + model_from(vs, k),
    decreases k,
{
    if k == 0 {
        assert(model_from(vs, 0) =~= model_upto(vs, 0) + model_from(vs, 0));
    } else {
        lemma_model_split(vs, k - 1);
        assert(model_from(vs, k - 1) == vs[k - 1]@ + model_from(vs, k));
        assert(model_upto(vs, k - 1) + (vs[k - 1]@ + model_from(vs, k)) =~= (model_upto(vs, k - 1)
            + vs[k - 1]@) + model_from(vs, k));
    }
}

/// Chunks before `k` do not affect the tail model.
pub proof fn lemma_model_from_congruent(vs1: Seq<Vec<i64>>, vs2: Seq<Vec<i64>>, i: int)
    requires
        vs1.len() == vs2.len(),
        forall|k: int| i <= k < vs1.len() ==> vs1[k]@ == vs2[k]@,
    ensures
        model_from(vs1, i) == model_from(vs2, i),
    decreases vs1.len() - i,
{
    if 0 <= i < vs1.len() {
        lemma_model_from_congruent(vs1, vs2, i + 1);
    }
}

/// Chunks at or past `k` do not affect the prefix model.
pub proof fn lemma_model_upto_congruent(vs1: Seq<Vec<i64>>, vs2: Seq<Vec<i64>>, k: int)
    requires
        forall|j: int| 0 <= j < k ==> vs1[j]@ == vs2[j]@,
    ensures
        model_upto(vs1, k) == model_upto(vs2, k),
    decreases k,
{
    if k > 0 {
        lemma_model_upto_congruent(vs1, vs2, k - 1);
    }
}

/// Appending a chunk appends its contents to the model.
pub proof fn lemma_model_push(vs: Seq<Vec<i64>>, c: Vec<i64>)
    ensures
        model_from(vs.push(c), 0) == model_from(vs, 0) + c@,
    decreases vs.len(),
{
    let vs2 = vs.push(c);
    lemma_model_split(vs2, vs.len() as int);
    assert(model_from(vs2, vs.len() as int + 1) =~= Seq::<i64>::empty());
    assert(model_from(vs2, vs.len() as int) == vs2[vs.len() as int]@ + model_from(
        vs2,
        vs.len() as int + 1,
    ));
    assert(model_from(vs2, vs.len() as int) =~= c@);
    assert forall|j: int| 0 <= j < vs.len() implies vs2[j]@ == vs[j]@ by {
    }
    lemma_model_upto_all(vs, vs2);
    assert(model_from(vs2, 0) =~= model_from(vs, 0) + c@);
}

/// Two chunk sequences that agree on a full prefix have the same prefix
/// model, and a sequence's own full prefix model is its model.
pub proof fn lemma_model_upto_all(vs: Seq<Vec<i64>>, vs2: Seq<Vec<i64>>)
    requires
        forall|j: int| 0 <= j < vs.len() ==> vs2[j]@ == vs[j]@,
    ensures
        model_upto(vs2, vs.len() as int) == model_from(vs, 0),
{
    lemma_model_upto_congruent(vs2, vs, vs.len() as int);
    lemma_model_split(vs, vs.len() as int);
    assert(model_from(vs, vs.len() as int) =~= Seq::<i64>::empty());
    assert(model_from(vs, 0) =~= model_upto(vs, vs.len() as int));
}

/// Inserting into a sequence inserts into its multiset.
pub proof fn lemma_insert_to_multiset(s: Seq<i64>, i: int, x: i64)
    requires
        0 <= i <= s.len(),
    ensures
        s.insert(i, x).to_multiset() == s.to_multiset().insert(x),
{
    broadcast use group_to_multiset_ensures;

    let t = s.insert(i, x);
    assert(t.remove(i) =~= s);
    assert(t[i] == x);
    assert(t.remove(i).to_multiset() =~= t.to_multiset().remove(x));
    assert(t.contains(x));
    assert(t.to_multiset().count(x) > 0);
    assert(t.to_multiset() =~= t.to_multiset().remove(x).insert(x));
}

/// Sort a vector of keys by repeated insertion.
#[verifier::loop_isolation(false)]
fn sort_keys(values: &Vec<i64>) -> (r: Vec<i64>)
    ensures
        sorted_seq(r@),
        r@.to_multiset() == values@.to_multiset(),
        r@.len() == values@.len(),
{
    broadcast use group_to_multiset_ensures;

    let mut out: Vec<i64> = Vec::new();
    let mut i: usize = 0;
    proof {
        assert(values@.take(0) =~= Seq::<i64>::empty());
        assert(out@.to_multiset() =~= values@.take(0).to_multiset());
    }
    while i < values.len()
        invariant
            i <= values@.len(),
            sorted_seq(out@),
            out@.len() == i,
            out@.to_multiset() == values@.take(i as int).to_multiset(),
        decreases values@.len() - i,
    {
        let x = values[i];
        let mut pos: usize = 0;
        while pos < out.len() && out[pos] <= x
            invariant
                pos <= out@.len(),
                forall|k: int| 0 <= k < pos ==> out@[k] <= x,
            decreases out@.len() - pos,
        {
            pos += 1;
        }
        let ghost before = out@;
        out.insert(pos, x);
        proof {
            assert(out@ == before.insert(pos as int, x));
            lemma_insert_to_multiset(before, pos as int, x);
            assert(values@.take(i as int + 1) =~= values@.take(i as int).push(values@[i as int]));
            assert(values@.take(i as int + 1).to_multiset() =~= values@.take(
                i as int,
            ).to_multiset().insert(x));
            assert forall|a: int, b: int| 0 <= a <= b < out@.len() implies out@[a] <= out@[b] by {
                if pos < before.len() {
                    assert(before[pos as int] > x);
                }
            }
        }
        i += 1;
    }
    proof {
        assert(values@.take(values@.len() as int) =~= values@);
    }
    out
}

/// Relies on superslice's `Ext::lower_bound`: on a sorted slice, the
/// index of the first element that is not less than `x`.
#[verifier::external_body]
fn lower_bound_chunk(v: &Vec<i64>, x: &i64) -> (r: usize)
    requires
        sorted_seq(v@),
    ensures
        r <= v@.len(),
        forall|k: int| 0 <= k < r ==> v@[k] < *x,
        forall|k: int| r <= k < v@.len() ==> v@[k] >= *x,
{
    v.lower_bound(x)
}

/// Relies on superslice's `Ext::upper_bound`: on a sorted slice, the
/// index of the first element that is greater than `x`.
#[verifier::external_body]
fn upper_bound_chunk(v: &Vec<i64>, x: &i64) -> (r: usize)
    requires
        sorted_seq(v@),
    ensures
        r <= v@.len(),
        forall|k: int| 0 <= k < r ==> v@[k] <= *x,
        forall|k: int| r <= k < v@.len() ==> v@[k] > *x,
{
    v.upper_bound(x)
}

/// The ordered multiset.
pub struct SortedMultiSet {
    n: usize,
    values: Vec<Vec<i64>>,
}

impl View for SortedMultiSet {
    type V = Seq<i64>;

    closed spec fn view(&self) -> Seq<i64> {
        model_from(self.values@, 0)
    }
}

impl SortedMultiSet {
    /// Well-formedness: the element count is the model's length, the
    /// model is sorted, and no chunk is empty.
    pub closed spec fn wf(&self) -> bool {
        &&& self.n == self@.len()
        &&& sorted_seq(self@)
        &&& forall|k: int| 0 <= k < self.values@.len() ==> #[trigger] self.values@[k]@.len() >= 1
    }

    /// A chunk's content is a slice of the model, and is itself sorted.
    proof fn lemma_chunk(&self, k: int)
        requires
            self.wf(),
            0 <= k < self.values@.len(),
        ensures
            self@ == model_upto(self.values@, k) + self.values@[k]@ + model_from(
                self.values@,
                k + 1,
            ),
            sorted_seq(self.values@[k]@),
            self.values@[k]@.len() >= 1,
    {
        lemma_model_split(self.values@, k);
        assert(model_from(self.values@, k) == self.values@[k]@ + model_from(self.values@, k + 1));
        assert(self@ =~= model_upto(self.values@, k) + self.values@[k]@ + model_from(
            self.values@,
            k + 1,
        ));
        let off = model_upto(self.values@, k).len() as int;
        let c = self.values@[k]@;
        assert forall|a: int, b: int| 0 <= a <= b < c.len() implies c[a] <= c[b] by {
            assert(c[a] == self@[off + a]);
            assert(c[b] == self@[off + b]);
        }
    }

    /// Build the structure from any bag of keys.
    #[verifier::loop_isolation(false)]
    pub fn new(values: &Vec<i64>) -> (r: Self)
        requires
            values@.len() <= 0xFFFF_FFFF,
        ensures
            r.wf(),
            r@.to_multiset() == values@.to_multiset(),
            sorted_seq(r@),
            r@.len() == values@.len(),
    {
        let sorted = sort_keys(values);
        let n = sorted.len();
        let mut bucket: usize = 1;
        while bucket < 0x2000
            invariant
                1 <= bucket <= 0x2000,
            decreases 0x2000 - bucket,
        {
            proof {
                assert(1 <= bucket <= 0x2000);
                assert(bucket * bucket <= 0x400_0000) by (nonlinear_arith)
                    requires
                        1 <= bucket <= 0x2000,
                ;
            }
            if bucket * bucket >= n / BUCKET_RATIO {
                break ;
            }
            bucket += 1;
        }
        let mut chunks: Vec<Vec<i64>> = Vec::new();
        let mut i: usize = 0;
        while i < n
            invariant
                i <= n,
                n == sorted@.len(),
                bucket >= 1,
                model_from(chunks@, 0) == sorted@.take(i as int),
                forall|k: int| 0 <= k < chunks@.len() ==> #[trigger] chunks@[k]@.len() >= 1,
            decreases n - i,
        {
            let mut chunk: Vec<i64> = Vec::new();
            let start = i;
            let mut j = i;
            while j < n && j - start < bucket
                invariant
                    start <= j <= n,
                    n == sorted@.len(),
                    chunk@ == sorted@.subrange(start as int, j as int),
                decreases n - j,
            {
                let ghost before = chunk@;
                chunk.push(sorted[j]);
                proof {
                    assert(chunk@ =~= sorted@.subrange(start as int, j as int + 1));
                }
                j += 1;
            }
            let ghost cs = chunks@;
            proof {
                lemma_model_push(cs, chunk);
            }
            chunks.push(chunk);
            proof {
                assert(model_from(chunks@, 0) =~= sorted@.take(j as int));
            }
            i = j;
        }
        let r = SortedMultiSet { n, values: chunks };
        proof {
            assert(sorted@.take(n as int) =~= sorted@);
        }
        r
    }

    /// The number of stored keys.
    pub fn len(&self) -> (r: usize)
        requires
            self.wf(),
        ensures
            r == self@.len(),
    {
        self.n
    }

    /// Locate `value`: the index of the chunk where it lives or would
    /// be inserted, and the in-chunk position of the first element not
    /// below it.  Together these name the global lower-bound position.
    #[verifier::loop_isolation(false)]
    fn chunk_position(&self, value: &i64) -> (r: (usize, usize))
        requires
            self.wf(),
            self.values@.len() > 0,
        ensures
            ({
                let (ci, idx) = r;
                let pos = model_upto(self.values@, ci as int).len() + idx;
                &&& ci < self.values@.len()
                &&& idx <= self.values@[ci as int]@.len()
                &&& 0 <= pos <= self@.len()
                &&& forall|j: int| 0 <= j < pos ==> self@[j] < *value
                &&& forall|j: int| pos <= j < self@.len() ==> self@[j] >= *value
                &&& pos < self@.len() ==> idx < self.values@[ci as int]@.len() && self@[pos]
                    == self.values@[ci as int]@[idx as int]
            }),
    {
        let m = self.values.len();
        let mut ci: usize = 0;
        let mut found = false;
        while !found && ci < m
            invariant
                ci <= m,
                m == self.values@.len(),
                forall|j: int|
                    0 <= j < model_upto(self.values@, ci as int).len() ==> self@[j] < *value,
                model_upto(self.values@, ci as int).len() <= self@.len(),
                found ==> ci < m && self.values@[ci as int]@.last() >= *value,
            decreases m - ci + (if found { 0int } else { 1int }),
        {
            proof {
                self.lemma_chunk(ci as int);
            }
            let clen = self.values[ci].len();
            let last = self.values[ci][clen - 1];
            if last >= *value {
                found = true;
            } else {
                proof {
                    assert(model_upto(self.values@, ci as int + 1) =~= model_upto(
                        self.values@,
                        ci as int,
                    ) + self.values@[ci as int]@);
                    let off = model_upto(self.values@, ci as int).len() as int;
                    assert forall|j: int|
                        0 <= j < model_upto(self.values@, ci as int + 1).len() implies self@[j]
                        < *value by {
                        if j >= off {
                            assert(self@[j] == self.values@[ci as int]@[j - off]);
                            assert(self@[j] <= self.values@[ci as int]@[clen - 1]);
                        }
                    }
                }
                ci += 1;
            }
        }
        if !found {
            ci = m - 1;
        }
        proof {
            self.lemma_chunk(ci as int);
            if !found {
                lemma_model_split(self.values@, m as int);
                assert(model_from(self.values@, m as int) =~= Seq::<i64>::empty());
                assert(model_upto(self.values@, m as int).len() == self@.len());
                assert(model_upto(self.values@, m as int) =~= model_upto(
                    self.values@,
                    m as int - 1,
                ) + self.values@[m as int - 1]@);
            }
        }
        let idx = lower_bound_chunk(&self.values[ci], value);
        proof {
            let off = model_upto(self.values@, ci as int).len() as int;
            let c = self.values@[ci as int]@;
            let pos = off + idx;
            assert forall|j: int| 0 <= j < pos implies self@[j] < *value by {
                if j >= off {
                    assert(self@[j] == c[j - off]);
                }
            }
            if found {
                assert(idx < c.len()) by {
                    if idx == c.len() {
                        assert(c[c.len() - 1] < *value);
                    }
                }
                assert(self@[pos] == c[idx as int]);
                assert forall|j: int| pos <= j < self@.len() implies self@[j] >= *value by {
                    assert(self@[pos] >= *value);
                    assert(self@[pos] <= self@[j]);
                }
            } else {
                assert(idx == c.len()) by {
                    if idx < c.len() {
                        assert(self@[pos] < *value);
                        assert(self@[pos] == c[idx as int]);
                        assert(c[idx as int] >= *value);
                    }
                }
                assert(pos == self@.len());
            }
        }
        (ci, idx)
    }

    /// Does the multiset hold `value`?
    pub fn contains(&self, value: &i64) -> (r: bool)
        requires
            self.wf(),
        ensures
            r == self@.contains(*value),
    {
        if self.values.len() == 0 {
            proof {
                assert(self@ =~= Seq::<i64>::empty());
            }
            return false;
        }
        let (ci, idx) = self.chunk_position(value);
        proof {
            self.lemma_chunk(ci as int);
        }
        let found = idx < self.values[ci].len() && self.values[ci][idx] == *value;
        proof {
            let pos = model_upto(self.values@, ci as int).len() + idx;
            if found {
                assert(self@[pos] == self.values@[ci as int]@[idx as int]);
                assert(self@.contains(*value)) by {
                    assert(self@[pos] == *value);
                }
            } else {
                if self@.contains(*value) {
                    let w = choose|j: int| 0 <= j < self@.len() && self@[j] == *value;
                    assert(pos <= w);
                    assert(pos < self@.len());
                    assert(self@[pos] == self.values@[ci as int]@[idx as int]);
                    assert(self@[pos] >= *value);
                    assert(self@[pos] <= self@[w]);
                    assert(false);
                }
            }
        }
        found
    }

    /// The position of the first occurrence of `value`, if any.
    #[verifier::loop_isolation(false)]
    pub fn find(&self, value: &i64) -> (r: Option<usize>)
        requires
            self.wf(),
        ensures
            match r {
                Some(i) => i < self@.len() && self@[i as int] == *value && forall|j: int|
                    0 <= j < i ==> self@[j] < *value,
                None => !self@.contains(*value),
            },
    {
        if self.values.len() == 0 {
            proof {
                assert(self@ =~= Seq::<i64>::empty());
            }
            return None;
        }
        let (ci, idx) = self.chunk_position(value);
        proof {
            self.lemma_chunk(ci as int);
        }
        if !(idx < self.values[ci].len() && self.values[ci][idx] == *value) {
            proof {
                let pos = model_upto(self.values@, ci as int).len() + idx;
                if self@.contains(*value) {
                    let w = choose|j: int| 0 <= j < self@.len() && self@[j] == *value;
                    assert(pos <= w);
                    assert(pos < self@.len());
                    assert(self@[pos] == self.values@[ci as int]@[idx as int]);
                    assert(self@[pos] >= *value);
                    assert(self@[pos] <= self@[w]);
                    assert(false);
                }
            }
            return None;
        }
        let mut acc: usize = 0;
        let mut k: usize = 0;
        while k < ci
            invariant
                k <= ci,
                ci < self.values@.len(),
                acc == model_upto(self.values@, k as int).len(),
                acc <= self@.len(),
            decreases ci - k,
        {
            proof {
                self.lemma_chunk(k as int);
                assert(model_upto(self.values@, k as int + 1) =~= model_upto(
                    self.values@,
                    k as int,
                ) + self.values@[k as int]@);
                lemma_model_split(self.values@, k as int + 1);
            }
            acc = acc + self.values[k].len();
            k += 1;
        }
        proof {
            let pos = model_upto(self.values@, ci as int).len() + idx;
            assert(self@[pos] == self.values@[ci as int]@[idx as int]);
        }
        Some(acc + idx)
    }

    /// Insert one copy of `value`, keeping the model sorted; an
    /// oversized chunk is split in half.
    #[verifier::loop_isolation(false)]
    #[verifier::rlimit(100)]
    pub fn add(&mut self, value: &i64) -> (r: bool)
        requires
            old(self).wf(),
            old(self)@.len() < 0xFFFF_FFFF,
        ensures
            final(self).wf(),
            final(self)@.to_multiset() == old(self)@.to_multiset().insert(*value),
            final(self)@.len() == old(self)@.len() + 1,
            sorted_seq(final(self)@),
            r,
    {
        if self.values.len() == 0 {
            let mut chunk: Vec<i64> = Vec::new();
            chunk.push(*value);
            let mut chunks: Vec<Vec<i64>> = Vec::new();
            proof {
                lemma_model_push(chunks@, chunk);
            }
            chunks.push(chunk);
            self.values = chunks;
            self.n = 1;
            proof {
                broadcast use group_to_multiset_ensures;

                assert(old(self)@ =~= Seq::<i64>::empty());
                assert(self@ =~= Seq::<i64>::empty().push(*value));
            }
            return true;
        }
        let (ci, idx) = self.chunk_position(value);
        proof {
            self.lemma_chunk(ci as int);
        }
        let ghost vs0 = self.values@;
        let ghost pos = model_upto(vs0, ci as int).len() + idx;
        let ghost chunk0 = vs0[ci as int]@;
        self.values[ci].insert(idx, *value);
        self.n = self.n + 1;
        proof {
            let vs1 = self.values@;
            lemma_model_upto_congruent(vs1, vs0, ci as int);
            lemma_model_from_congruent(vs1, vs0, ci as int + 1);
            lemma_model_split(vs1, ci as int);
            assert(model_from(vs1, ci as int) == vs1[ci as int]@ + model_from(vs1, ci as int + 1));
            assert(vs1[ci as int]@ == chunk0.insert(idx as int, *value));
            assert(self@ =~= old(self)@.insert(pos, *value)) by {
                assert(chunk0.insert(idx as int, *value) =~= chunk0.take(idx as int) + seq![*value]
                    + chunk0.skip(idx as int));
                assert(old(self)@ =~= model_upto(vs0, ci as int) + chunk0.take(idx as int)
                    + chunk0.skip(idx as int) + model_from(vs0, ci as int + 1));
                assert(self@ =~= model_upto(vs0, ci as int) + chunk0.take(idx as int)
                    + seq![*value] + chunk0.skip(idx as int) + model_from(vs0, ci as int + 1));
                assert(old(self)@.insert(pos, *value) =~= old(self)@.take(pos) + seq![*value] + old(
                    self,
                )@.skip(pos));
                assert(old(self)@.take(pos) =~= model_upto(vs0, ci as int) + chunk0.take(
                    idx as int,
                ));
                assert(old(self)@.skip(pos) =~= chunk0.skip(idx as int) + model_from(
                    vs0,
                    ci as int + 1,
                ));
            }
            lemma_insert_to_multiset(old(self)@, pos, *value);
            assert forall|a: int, b: int| 0 <= a <= b < self@.len() implies self@[a] <= self@[b] by {
                let m0 = old(self)@;
                let m1 = self@;
                assert(m1 == m0.insert(pos, *value));
                assert(forall|j: int| 0 <= j < pos ==> m0[j] < *value);
                assert(forall|j: int| pos <= j < m0.len() ==> m0[j] >= *value);
            }
        }
        let clen = self.values[ci].len();
        if clen > 1 && clen / SPLIT_RATIO > self.values.len() {
            let ghost vsa = self.values@;
            let mid = clen / 2;
            let mut left: Vec<i64> = Vec::new();
            let mut t: usize = 0;
            while t < mid
                invariant
                    t <= mid,
                    mid < self.values@[ci as int]@.len(),
                    ci < self.values@.len(),
                    left@ == self.values@[ci as int]@.take(t as int),
                decreases mid - t,
            {
                let ghost lb = left@;
                left.push(self.values[ci][t]);
                proof {
                    assert(left@ =~= self.values@[ci as int]@.take(t as int + 1));
                }
                t += 1;
            }
            let mut right: Vec<i64> = Vec::new();
            let mut t: usize = mid;
            while t < clen
                invariant
                    mid <= t <= clen,
                    clen == self.values@[ci as int]@.len(),
                    ci < self.values@.len(),
                    right@ == self.values@[ci as int]@.subrange(mid as int, t as int),
                decreases clen - t,
            {
                right.push(self.values[ci][t]);
                proof {
                    assert(right@ =~= self.values@[ci as int]@.subrange(mid as int, t as int + 1));
                }
                t += 1;
            }
            let ghost full = self.values@[ci as int]@;
            self.values[ci] = right;
            self.values.insert(ci, left);
            proof {
                let vsb = self.values@;
                assert(left@ + right@ =~= full);
                assert(vsb.len() == vsa.len() + 1);
                assert(forall|j: int| 0 <= j < ci ==> vsb[j]@ == vsa[j]@);
                assert(vsb[ci as int]@ == left@);
                assert(vsb[ci as int + 1]@ == right@);
                assert(forall|j: int| ci as int + 1 <= j < vsa.len() ==> vsb[j + 1]@ == vsa[j]@);
                lemma_split_preserves_model(vsa, vsb, ci as int, left, right);
                assert(self@ =~= model_from(vsa, 0));
            }
        }
        true
    }

    /// Remove one copy of `value`; report whether one was there.
    #[verifier::loop_isolation(false)]
    pub fn drop(&mut self, value: &i64) -> (r: bool)
        requires
            old(self).wf(),
        ensures
            final(self).wf(),
            r == old(self)@.contains(*value),
            r ==> final(self)@.to_multiset() == old(self)@.to_multiset().remove(*value)
                && final(self)@.len() == old(self)@.len() - 1,
            !r ==> *final(self) == *old(self),
            sorted_seq(final(self)@),
    {
        broadcast use group_to_multiset_ensures;

        if self.values.len() == 0 {
            proof {
                assert(self@ =~= Seq::<i64>::empty());
            }
            return false;
        }
        let (ci, idx) = self.chunk_position(value);
        proof {
            self.lemma_chunk(ci as int);
        }
        let ghost pos = model_upto(self.values@, ci as int).len() + idx;
        if !(idx < self.values[ci].len() && self.values[ci][idx] == *value) {
            proof {
                if self@.contains(*value) {
                    let w = choose|j: int| 0 <= j < self@.len() && self@[j] == *value;
                    assert(pos <= w);
                    assert(pos < self@.len());
                    assert(self@[pos] == self.values@[ci as int]@[idx as int]);
                    assert(self@[pos] >= *value);
                    assert(self@[pos] <= self@[w]);
                    assert(false);
                }
            }
            return false;
        }
        let ghost vs0 = self.values@;
        let ghost chunk0 = vs0[ci as int]@;
        self.values[ci].remove(idx);
        self.n = self.n - 1;
        let ghost vsm = self.values@;
        proof {
            assert(old(self)@[pos] == chunk0[idx as int]);
        }
        if self.values[ci].len() == 0 {
            self.values.remove(ci);
        }
        proof {
            let vs1 = self.values@;
            if chunk0.len() == 1 {
                assert(vs1 =~= vsm.remove(ci as int));
                lemma_remove_chunk_model(vsm, ci as int, vs1);
                lemma_model_upto_congruent(vsm, vs0, ci as int);
                lemma_model_from_congruent(vsm, vs0, ci as int + 1);
                assert(chunk0.remove(idx as int) =~= Seq::<i64>::empty());
                assert(self@ =~= old(self)@.remove(pos)) by {
                    assert(old(self)@ =~= model_upto(vs0, ci as int) + chunk0 + model_from(
                        vs0,
                        ci as int + 1,
                    ));
                    assert(old(self)@.remove(pos) =~= old(self)@.take(pos) + old(self)@.skip(
                        pos + 1,
                    ));
                    assert(old(self)@.take(pos) =~= model_upto(vs0, ci as int));
                    assert(old(self)@.skip(pos + 1) =~= model_from(vs0, ci as int + 1));
                }
            } else {
                lemma_model_upto_congruent(vs1, vs0, ci as int);
                lemma_model_from_congruent(vs1, vs0, ci as int + 1);
                lemma_model_split(vs1, ci as int);
                assert(self@ =~= old(self)@.remove(pos)) by {
                    assert(vs1[ci as int]@ == chunk0.remove(idx as int));
                    assert(chunk0.remove(idx as int) =~= chunk0.take(idx as int) + chunk0.skip(
                        idx as int + 1,
                    ));
                    assert(old(self)@.remove(pos) =~= old(self)@.take(pos) + old(self)@.skip(
                        pos + 1,
                    ));
                    assert(old(self)@.take(pos) =~= model_upto(vs0, ci as int) + chunk0.take(
                        idx as int,
                    ));
                    assert(old(self)@.skip(pos + 1) =~= chunk0.skip(idx as int + 1) + model_from(
                        vs0,
                        ci as int + 1,
                    ));
                    assert(self@ =~= model_upto(vs0, ci as int) + chunk0.take(idx as int)
                        + chunk0.skip(idx as int + 1) + model_from(vs0, ci as int + 1));
                }
            }
            assert(old(self)@.remove(pos).to_multiset() =~= old(self)@.to_multiset().remove(
                *value,
            ));
            assert forall|a: int, b: int| 0 <= a <= b < self@.len() implies self@[a] <= self@[b] by {
                assert(self@ == old(self)@.remove(pos));
            }
        }
        true
    }

    /// Remove the element at position `index` and return it.
    #[verifier::loop_isolation(false)]
    pub fn remove(&mut self, index: usize) -> (r: Option<i64>)
        requires
            old(self).wf(),
        ensures
            final(self).wf(),
            sorted_seq(final(self)@),
            match r {
                Some(v) => index < old(self)@.len() && v == old(self)@[index as int]
                    && final(self)@ == old(self)@.remove(index as int),
                None => index >= old(self)@.len() && *final(self) == *old(self),
            },
    {
        broadcast use group_to_multiset_ensures;

        let mut rest = index;
        let mut ci: usize = 0;
        while ci < self.values.len()
            invariant
                self.wf(),
                *self == *old(self),
                ci <= self.values@.len(),
                index - rest == model_upto(self.values@, ci as int).len(),
                rest <= index,
                model_upto(self.values@, ci as int).len() <= index,
            decreases self.values@.len() - ci,
        {
            proof {
                self.lemma_chunk(ci as int);
            }
            let clen = self.values[ci].len();
            if rest < clen {
                let ghost vs0 = self.values@;
                let ghost chunk0 = vs0[ci as int]@;
                let ghost pos = model_upto(vs0, ci as int).len() + rest;
                let out = self.values[ci].remove(rest);
                self.n = self.n - 1;
                let ghost vsm = self.values@;
                proof {
                    assert(pos == index);
                    assert(old(self)@[pos] == chunk0[rest as int]);
                }
                if self.values[ci].len() == 0 {
                    self.values.remove(ci);
                }
                proof {
                    let vs1 = self.values@;
                    if chunk0.len() == 1 {
                        assert(vs1 =~= vsm.remove(ci as int));
                        lemma_remove_chunk_model(vsm, ci as int, vs1);
                        lemma_model_upto_congruent(vsm, vs0, ci as int);
                        lemma_model_from_congruent(vsm, vs0, ci as int + 1);
                        assert(chunk0.remove(rest as int) =~= Seq::<i64>::empty());
                        assert(self@ =~= old(self)@.remove(pos)) by {
                            assert(old(self)@.remove(pos) =~= old(self)@.take(pos) + old(
                                self,
                            )@.skip(pos + 1));
                            assert(old(self)@.take(pos) =~= model_upto(vs0, ci as int));
                            assert(old(self)@.skip(pos + 1) =~= model_from(vs0, ci as int + 1));
                        }
                    } else {
                        lemma_model_upto_congruent(vs1, vs0, ci as int);
                        lemma_model_from_congruent(vs1, vs0, ci as int + 1);
                        lemma_model_split(vs1, ci as int);
                        assert(self@ =~= old(self)@.remove(pos)) by {
                            assert(vs1[ci as int]@ == chunk0.remove(rest as int));
                            assert(chunk0.remove(rest as int) =~= chunk0.take(rest as int)
                                + chunk0.skip(rest as int + 1));
                            assert(old(self)@.remove(pos) =~= old(self)@.take(pos) + old(
                                self,
                            )@.skip(pos + 1));
                            assert(old(self)@.take(pos) =~= model_upto(vs0, ci as int)
                                + chunk0.take(rest as int));
                            assert(old(self)@.skip(pos + 1) =~= chunk0.skip(rest as int + 1)
                                + model_from(vs0, ci as int + 1));
                            assert(self@ =~= model_upto(vs0, ci as int) + chunk0.take(rest as int)
                                + chunk0.skip(rest as int + 1) + model_from(vs0, ci as int + 1));
                        }
                    }
                    assert forall|a: int, b: int|
                        0 <= a <= b < self@.len() implies self@[a] <= self@[b] by {
                        assert(self@ == old(self)@.remove(pos));
                    }
                }
                return Some(out);
            }
            proof {
                self.lemma_chunk(ci as int);
            }
            rest = rest - clen;
            ci += 1;
        }
        proof {
            lemma_model_split(self.values@, self.values@.len() as int);
            assert(model_from(self.values@, self.values@.len() as int) =~= Seq::<i64>::empty());
        }
        None
    }

    /// The `index`-th smallest key, if the multiset is that large.
    #[verifier::loop_isolation(false)]
    pub fn nth(&self, index: usize) -> (r: Option<i64>)
        requires
            self.wf(),
        ensures
            match r {
                Some(v) => index < self@.len() && v == self@[index as int],
                None => index >= self@.len(),
            },
    {
        let mut rest = index;
        let mut ci: usize = 0;
        while ci < self.values.len()
            invariant
                ci <= self.values@.len(),
                index - rest == model_upto(self.values@, ci as int).len(),
                rest <= index,
            decreases self.values@.len() - ci,
        {
            proof {
                self.lemma_chunk(ci as int);
            }
            let clen = self.values[ci].len();
            if rest < clen {
                proof {
                    assert(self@[index as int] == self.values@[ci as int]@[rest as int]);
                }
                return Some(self.values[ci][rest]);
            }
            rest = rest - clen;
            ci += 1;
        }
        proof {
            lemma_model_split(self.values@, self.values@.len() as int);
            assert(model_from(self.values@, self.values@.len() as int) =~= Seq::<i64>::empty());
        }
        None
    }

    /// The greatest key strictly below `value`, if any.
    pub fn less_than(&self, value: &i64) -> (r: Option<i64>)
        requires
            self.wf(),
        ensures
            match r {
                Some(v) => v < *value && self@.contains(v) && forall|j: int|
                    0 <= j < self@.len() && self@[j] < *value ==> self@[j] <= v,
                None => forall|j: int| 0 <= j < self@.len() ==> self@[j] >= *value,
            },
    {
        if self.values.len() == 0 {
            proof {
                assert(self@ =~= Seq::<i64>::empty());
            }
            return None;
        }
        let (ci, idx) = self.chunk_position(value);
        proof {
            self.lemma_chunk(ci as int);
        }
        let ghost pos = model_upto(self.values@, ci as int).len() + idx;
        if idx > 0 {
            proof {
                assert(self@[pos - 1] == self.values@[ci as int]@[idx - 1]);
            }
            return Some(self.values[ci][idx - 1]);
        }
        if ci == 0 {
            proof {
                assert(pos == 0);
            }
            return None;
        }
        proof {
            self.lemma_chunk(ci as int - 1);
        }
        let prev_len = self.values[ci - 1].len();
        proof {
            assert(model_upto(self.values@, ci as int) =~= model_upto(self.values@, ci as int - 1)
                + self.values@[ci as int - 1]@);
            assert(self@[pos - 1] == self.values@[ci as int - 1]@[prev_len - 1]);
        }
        Some(self.values[ci - 1][prev_len - 1])
    }

    /// The greatest key at or below `value`, if any.
    pub fn less_than_or_equal(&self, value: &i64) -> (r: Option<i64>)
        requires
            self.wf(),
        ensures
            match r {
                Some(v) => v <= *value && self@.contains(v) && forall|j: int|
                    0 <= j < self@.len() && self@[j] <= *value ==> self@[j] <= v,
                None => forall|j: int| 0 <= j < self@.len() ==> self@[j] > *value,
            },
    {
        if self.contains(value) {
            return Some(*value);
        }
        self.less_than(value)
    }

    /// The least key strictly above `value`, if any.
    pub fn greater_than(&self, value: &i64) -> (r: Option<i64>)
        requires
            self.wf(),
        ensures
            match r {
                Some(v) => v > *value && self@.contains(v) && forall|j: int|
                    0 <= j < self@.len() && self@[j] > *value ==> self@[j] >= v,
                None => forall|j: int| 0 <= j < self@.len() ==> self@[j] <= *value,
            },
    {
        let m = self.values.len();
        let mut ci: usize = 0;
        while ci < m
            invariant
                ci <= m,
                m == self.values@.len(),
                self.wf(),
                forall|j: int|
                    0 <= j < model_upto(self.values@, ci as int).len() ==> self@[j] <= *value,
                model_upto(self.values@, ci as int).len() <= self@.len(),
            decreases m - ci,
        {
            proof {
                self.lemma_chunk(ci as int);
            }
            let clen = self.values[ci].len();
            let last = self.values[ci][clen - 1];
            if last > *value {
                let idx = upper_bound_chunk(&self.values[ci], value);
                proof {
                    assert(idx < self.values@[ci as int]@.len()) by {
                        if idx as int == self.values@[ci as int]@.len() {
                            assert(self.values@[ci as int]@[clen - 1] <= *value);
                        }
                    }
                    let pos = model_upto(self.values@, ci as int).len() + idx;
                    assert(self@[pos] == self.values@[ci as int]@[idx as int]);
                    assert forall|j: int|
                        0 <= j < self@.len() && self@[j] > *value implies self@[j]
                        >= self@[pos] by {
                        if j < model_upto(self.values@, ci as int).len() {
                        } else if j < pos {
                            assert(self@[j] == self.values@[ci as int]@[j - model_upto(
                                self.values@,
                                ci as int,
                            ).len()]);
                        }
                    }
                }
                return Some(self.values[ci][idx]);
            }
            proof {
                assert(model_upto(self.values@, ci as int + 1) =~= model_upto(
                    self.values@,
                    ci as int,
                ) + self.values@[ci as int]@);
                assert forall|j: int|
                    0 <= j < model_upto(self.values@, ci as int + 1).len() implies self@[j]
                    <= *value by {
                    if j >= model_upto(self.values@, ci as int).len() {
                        assert(self@[j] == self.values@[ci as int]@[j - model_upto(
                            self.values@,
                            ci as int,
                        ).len()]);
                        assert(self@[j] <= self.values@[ci as int]@[clen - 1]);
                    }
                }
            }
            ci += 1;
        }
        proof {
            lemma_model_split(self.values@, m as int);
            assert(model_from(self.values@, m as int) =~= Seq::<i64>::empty());
        }
        None
    }

    /// The least key at or above `value`, if any.
    pub fn greater_than_or_equal(&self, value: &i64) -> (r: Option<i64>)
        requires
            self.wf(),
        ensures
            match r {
                Some(v) => v >= *value && self@.contains(v) && forall|j: int|
                    0 <= j < self@.len() && self@[j] >= *value ==> self@[j] >= v,
                None => forall|j: int| 0 <= j < self@.len() ==> self@[j] < *value,
            },
    {
        if self.contains(value) {
            return Some(*value);
        }
        self.greater_than(value)
    }
}

/// Removing a chunk removes its contents from the model; here the chunk
/// removed is empty, so the model is untouched.
proof fn lemma_remove_chunk_model(vs0: Seq<Vec<i64>>, k: int, vs1: Seq<Vec<i64>>)
    requires
        0 <= k < vs0.len(),
        vs1 == vs0.remove(k),
        vs0[k]@.len() == 0,
    ensures
        model_from(vs1, 0) == model_upto(vs0, k) + model_from(vs0, k + 1),
{
    lemma_model_split(vs0, k);
    lemma_model_split(vs1, k);
    lemma_model_upto_congruent(vs1, vs0, k);
    lemma_model_from_shift(vs0, vs1, k);
}

/// After deleting chunk `k`, the tail model from `k` equals the old
/// tail model from `k + 1`.
proof fn lemma_model_from_shift(vs0: Seq<Vec<i64>>, vs1: Seq<Vec<i64>>, k: int)
    requires
        0 <= k < vs0.len(),
        vs1 == vs0.remove(k),
    ensures
        model_from(vs1, k) == model_from(vs0, k + 1),
    decreases vs0.len() - k,
{
    if k + 1 < vs0.len() {
        lemma_model_from_shift_inner(vs0, vs1, k, k);
    } else {
        assert(model_from(vs1, k) =~= Seq::<i64>::empty());
        assert(model_from(vs0, k + 1) =~= Seq::<i64>::empty());
    }
}

/// The tails of a sequence with chunk `k` deleted line up with the old
/// tails, one position later.
proof fn lemma_model_from_shift_inner(vs0: Seq<Vec<i64>>, vs1: Seq<Vec<i64>>, k: int, i: int)
    requires
        0 <= k < vs0.len(),
        vs1 == vs0.remove(k),
        k <= i,
    ensures
        model_from(vs1, i) == model_from(vs0, i + 1),
    decreases vs0.len() - i,
{
    if i < vs1.len() {
        lemma_model_from_shift_inner(vs0, vs1, k, i + 1);
        assert(vs1[i] == vs0[i + 1]);
    } else {
        assert(model_from(vs1, i) =~= Seq::<i64>::empty());
        assert(model_from(vs0, i + 1) =~= Seq::<i64>::empty());
    }
}

/// Splitting one chunk into two consecutive halves leaves the model
/// unchanged.
proof fn lemma_split_preserves_model(
    vsa: Seq<Vec<i64>>,
    vsb: Seq<Vec<i64>>,
    k: int,
    left: Vec<i64>,
    right: Vec<i64>,
)
    requires
        0 <= k < vsa.len(),
        vsb.len() == vsa.len() + 1,
        left@ + right@ == vsa[k]@,
        forall|j: int| 0 <= j < k ==> vsb[j]@ == vsa[j]@,
        vsb[k]@ == left@,
        vsb[k + 1]@ == right@,
        forall|j: int| k + 1 <= j < vsa.len() ==> vsb[j + 1]@ == vsa[j]@,
    ensures
        model_from(vsb, 0) == model_from(vsa, 0),
{
    lemma_model_split(vsa, k);
    lemma_model_split(vsb, k);
    lemma_model_upto_congruent(vsb, vsa, k);
    lemma_split_tail(vsa, vsb, k, k + 1);
    assert(model_from(vsb, k) == vsb[k]@ + model_from(vsb, k + 1));
    assert(model_from(vsb, k + 1) == vsb[k + 1]@ + model_from(vsb, k + 2));
    assert(model_from(vsa, k) == vsa[k]@ + model_from(vsa, k + 1));
    assert(model_from(vsb, 0) =~= model_from(vsa, 0));
}

/// Past the split point, the new tails equal the old tails shifted by
/// one.
proof fn lemma_split_tail(vsa: Seq<Vec<i64>>, vsb: Seq<Vec<i64>>, k: int, i: int)
    requires
        0 <= k < vsa.len(),
        vsb.len() == vsa.len() + 1,
        forall|j: int| k + 1 <= j < vsa.len() ==> vsb[j + 1]@ == vsa[j]@,
        k + 1 <= i,
    ensures
        model_from(vsb, i + 1) == model_from(vsa, i),
    decreases vsa.len() - i,
{
    if i < vsa.len() {
        lemma_split_tail(vsa, vsb, k, i + 1);
        assert(vsb[i + 1]@ == vsa[i]@);
    } else {
        assert(model_from(vsb, i + 1) =~= Seq::<i64>::empty());
        assert(model_from(vsa, i) =~= Seq::<i64>::empty());
    }
}

} // verus!
