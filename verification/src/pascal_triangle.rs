//! Pascal's triangle over any type with a unit and an addition,
//! giving binomial coefficients `nCr` and multiset coefficients `nHr`
//! in constant time after quadratic precomputation.

use vstd::prelude::*;

verus! {

/// The capability the triangle needs: a unit element and an addition.
pub trait Trait: Sized + Copy {
    /// The unit element, as a mathematical value.
    spec fn one_spec() -> Self;

    /// The addition, as a mathematical function.
    spec fn plus_spec(a: Self, b: Self) -> Self;

    /// Return the unit element.
    fn one() -> (r: Self)
        ensures
            r == Self::one_spec(),
    ;

    /// Return the sum of `self` and `rhs`.
    fn plus(&self, rhs: Self) -> (r: Self)
        ensures
            r == Self::plus_spec(*self, rhs),
    ;
}

/// The Pascal recurrence: ones on the two edges, each inner entry the
/// sum of the two entries above it.
pub open spec fn pascal_spec<T: Trait>(n: nat, r: nat) -> T
    decreases n,
{
    if r == 0 || r >= n {
        T::one_spec()
    } else {
        T::plus_spec(pascal_spec::<T>((n - 1) as nat, (r - 1) as nat), pascal_spec::<T>((n - 1) as nat, r))
    }
}

/// A precomputed triangle of `pascal_spec` values up to `max`.
pub struct PascalTriangle<T> {
    /// The largest admissible argument.
    pub max: usize,
    /// Row `n` holds `nCr` at column `r` for `r <= n`.
    pub values: Vec<Vec<T>>,
}

impl<T: Trait> PascalTriangle<T> {
    /// Every row is full width and every entry at or left of the
    /// diagonal is the corresponding coefficient.
    pub open spec fn wf(&self) -> bool {
        &&& self.values@.len() == self.max + 1
        &&& forall|i: int| 0 <= i <= self.max ==> #[trigger] self.values@[i]@.len() == self.max + 1
        &&& forall|i: int, j: int|
            0 <= i <= self.max && 0 <= j <= i ==> #[trigger] self.values@[i]@[j] == pascal_spec::<
                T,
            >(i as nat, j as nat)
    }

    /// Build the triangle row by row.
    #[verifier::loop_isolation(false)]
    pub fn new(max: usize) -> (t: Self)
        requires
            max < usize::MAX,
        ensures
            t.wf(),
            t.max == max,
    {
        let mut values: Vec<Vec<T>> = Vec::new();
        let mut row0: Vec<T> = Vec::new();
        let mut j: usize = 0;
        while j <= max
            invariant
                j <= max + 1,
                row0@.len() == j,
                forall|k: int| 0 <= k < j ==> #[trigger] row0@[k] == T::one_spec(),
            decreases max + 1 - j,
        {
            row0.push(T::one());
            j += 1;
        }
        values.push(row0);
        let mut i: usize = 1;
        while i <= max
            invariant
                1 <= i <= max + 1,
                values@.len() == i,
                forall|a: int| 0 <= a < i ==> #[trigger] values@[a]@.len() == max + 1,
                forall|a: int, b: int|
                    0 <= a < i && 0 <= b <= a ==> #[trigger] values@[a]@[b] == pascal_spec::<T>(
                        a as nat,
                        b as nat,
                    ),
            decreases max + 1 - i,
        {
            let mut row: Vec<T> = Vec::new();
            row.push(T::one());
            let mut j: usize = 1;
            while j < i
                invariant
                    1 <= j <= i,
                    row@.len() == j,
                    row@[0] == T::one_spec(),
                    forall|b: int| 0 <= b < j ==> #[trigger] row@[b] == pascal_spec::<T>(
                        i as nat,
                        b as nat,
                    ),
                decreases i - j,
            {
                let left = values[i - 1][j - 1];
                let right = values[i - 1][j];
                row.push(left.plus(right));
                j += 1;
            }
            while j <= max
                invariant
                    i <= j <= max + 1,
                    row@.len() == j,
                    forall|b: int| 0 <= b < j && b < i ==> #[trigger] row@[b] == pascal_spec::<T>(
                        i as nat,
                        b as nat,
                    ),
                    forall|b: int| i <= b < j ==> #[trigger] row@[b] == T::one_spec(),
                decreases max + 1 - j,
            {
                row.push(T::one());
                j += 1;
            }
            values.push(row);
            i += 1;
        }
        PascalTriangle { max, values }
    }

    /// Return `nCr`, the entry of row `n` and column `r`.
    pub fn combination(&self, n: usize, r: usize) -> (c: T)
        requires
            self.wf(),
            n <= self.max,
            r <= n,
        ensures
            c == pascal_spec::<T>(n as nat, r as nat),
    {
        self.values[n][r]
    }

    /// Return `nHr`, the number of multisets: `(n + r - 1)Cr`.
    pub fn duplicated_combination(&self, n: usize, r: usize) -> (c: T)
        requires
            self.wf(),
            1 <= n,
            n + r - 1 <= self.max,
            n <= self.max,
            r <= self.max,
        ensures
            c == pascal_spec::<T>((n + r - 1) as nat, r as nat),
    {
        let rows = self.values.len();
        proof {
            assert(rows == self.max + 1);
        }
        self.values[n + r - 1][r]
    }
}

impl Trait for u64 {
    open spec fn one_spec() -> u64 {
        1
    }

    open spec fn plus_spec(a: u64, b: u64) -> u64 {
        ((a + b) % 0x1_0000_0000_0000_0000) as u64
    }

    fn one() -> u64 {
        1
    }

    fn plus(&self, rhs: u64) -> (r: u64)
    {
        proof {
            let w: int = 0x1_0000_0000_0000_0000;
            if *self + rhs <= u64::MAX {
                vstd::arithmetic::div_mod::lemma_small_mod((*self + rhs) as nat, w as nat);
            } else {
                vstd::arithmetic::div_mod::lemma_mod_multiples_vanish(
                    1,
                    *self + rhs - w,
                    w,
                );
                vstd::arithmetic::div_mod::lemma_small_mod((*self + rhs - w) as nat, w as nat);
            }
        }
        self.wrapping_add(rhs)
    }
}

} // verus!
