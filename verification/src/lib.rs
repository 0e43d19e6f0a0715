//! Algorithmic building blocks with machine-checked contracts.
//!
//! The centrepiece is the segment-tree family: a plain point-update /
//! range-fold segment tree over an arbitrary monoid, and a lazy segment
//! tree layering deferred range updates on top of the same indexing
//! scheme.  A set of self-contained utility modules (number theory,
//! union-find, tries, an ordered multiset, graph routines) accompanies
//! them.

pub mod bellman_ford;
pub mod eratosthenes;
pub mod euclid;
pub mod fenwick_tree;
pub mod floyd_warshall;
pub mod galois_field;
pub mod pascal_triangle;
pub mod prime;
pub mod repeated_squaring;
pub mod lazy_segtree;
pub mod range_sum_range_affine;
pub mod segtree;
pub mod sorted_multi_set;
pub mod trie_node;
pub mod trie_tree;
pub mod union_find;
