//! A byte trie counting, for every stored word, the nodes it passes
//! through and the node it stops at.

use vstd::prelude::*;
use crate::trie_node::TrieNode;
use crate::trie_node::find_key;

verus! {

/// The sum, along the path spelled by `values[i..]` from `node`, of
/// each reached child's pass and stop counters, stopping at the first
/// missing edge.  A node's pass counter counts the words inserted
/// through it and its stop counter the words ending at it, so each
/// reached child contributes the number of words that share the path
/// down to it.
pub open spec fn match_count(node: TrieNode, values: Seq<u8>, i: int) -> nat
    decreases values.len() - i,
{
    if i < 0 || i >= values.len() {
        0
    } else {
        let idx = find_key(node.spec_children(), values[i]);
        if idx < 0 {
            0
        } else {
            let child = node.spec_children()[idx].node;
            child.spec_pass() + child.spec_stop() + match_count(child, values, i + 1)
        }
    }
}

/// The trie.
pub struct TrieTree {
    top: TrieNode,
}

impl TrieTree {
    /// The root node's counters and children.
    pub closed spec fn spec_top(&self) -> TrieNode {
        self.top
    }

    /// An empty trie.
    pub fn new() -> (r: Self)
        ensures
            r.spec_top().spec_pass() == 0,
            r.spec_top().spec_stop() == 0,
            r.spec_top().spec_children().len() == 0,
    {
        TrieTree { top: TrieNode::new() }
    }

    /// Store the word `values`: bump the pass counter of every node on
    /// its path, create missing edges, and bump the stop counter of the
    /// final node.
    pub fn insert(&mut self, values: Vec<u8>)
        ensures
            values@.len() == 0 ==> final(self).spec_top().spec_stop() == (if old(
                self,
            ).spec_top().spec_stop() < usize::MAX {
                old(self).spec_top().spec_stop() + 1
            } else {
                old(self).spec_top().spec_stop()
            }) && final(self).spec_top().spec_pass() == old(self).spec_top().spec_pass(),
            values@.len() > 0 ==> final(self).spec_top().spec_pass() == (if old(
                self,
            ).spec_top().spec_pass() < usize::MAX {
                old(self).spec_top().spec_pass() + 1
            } else {
                old(self).spec_top().spec_pass()
            }) && final(self).spec_top().spec_stop() == old(self).spec_top().spec_stop(),
    {
        let mut taken = TrieNode::new();
        core::mem::swap(&mut taken, &mut self.top);
        let grown = TrieNode::insert_path(taken, &values, 0);
        let mut grown = grown;
        core::mem::swap(&mut grown, &mut self.top);
    }

    /// Sum the pass and stop counters of the nodes reached along
    /// `values`, stopping at the first missing edge.  Each reached node
    /// contributes once for every stored word sharing the path down to
    /// it, so a word contributes once per reached prefix.
    #[verifier::loop_isolation(false)]
    pub fn n_match(&self, values: &Vec<u8>) -> (r: usize)
        ensures
            match_count(self.spec_top(), values@, 0) <= usize::MAX ==> r == match_count(
                self.spec_top(),
                values@,
                0,
            ),
    {
        let mut acc: usize = 0;
        let mut cur: &TrieNode = &self.top;
        let mut i: usize = 0;
        while i < values.len()
            invariant
                i <= values@.len(),
                match_count(self.spec_top(), values@, 0) == acc + match_count(
                    *cur,
                    values@,
                    i as int,
                ) || match_count(self.spec_top(), values@, 0) > usize::MAX,
                acc <= match_count(self.spec_top(), values@, 0),
            decreases values@.len() - i,
        {
            let key = values[i];
            match cur.get(&key) {
                Some(child) => {
                    let p = child.n_pass();
                    let s = child.n_stop();
                    if acc <= usize::MAX - p && acc + p <= usize::MAX - s {
                        acc = acc + p + s;
                    } else {
                        proof {
                            assert(match_count(self.spec_top(), values@, 0) > usize::MAX);
                        }
                        acc = usize::MAX;
                    }
                    cur = child;
                },
                None => {
                    proof {
                        assert(match_count(*cur, values@, i as int) == 0);
                    }
                    return acc;
                },
            }
            i += 1;
        }
        acc
    }
}

} // verus!
