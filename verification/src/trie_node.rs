//! One node of a byte trie: how many inserted words passed through it,
//! how many stopped at it, and its labelled children.

use vstd::prelude::*;

verus! {

/// A labelled edge to a child node.
pub struct TrieChild {
    /// The byte labelling the edge.
    pub key: u8,
    /// The subtree reached along it.
    pub node: TrieNode,
}

/// The index of the first child labelled `key`, or a negative number if
/// there is none.
pub open spec fn find_key(s: Seq<TrieChild>, key: u8) -> int
    decreases s.len(),
{
    if s.len() == 0 {
        -1
    } else if s[0].key == key {
        0
    } else {
        let r = find_key(s.drop_first(), key);
        if r < 0 {
            -1
        } else {
            r + 1
        }
    }
}

/// A found index is in range and labelled with the key it was found by.
pub proof fn lemma_find_key(s: Seq<TrieChild>, key: u8)
    ensures
        find_key(s, key) >= 0 ==> 0 <= find_key(s, key) < s.len() && s[find_key(s, key)].key
            == key,
        find_key(s, key) < 0 ==> forall|i: int| 0 <= i < s.len() ==> #[trigger] s[i].key != key,
    decreases s.len(),
{
    if s.len() > 0 && s[0].key != key {
        lemma_find_key(s.drop_first(), key);
        assert forall|i: int| 1 <= i < s.len() implies s[i] == s.drop_first()[i - 1] by {
        }
    }
}

/// If entry `i` matches and nothing before it does, the search returns
/// `i`.
pub proof fn lemma_find_key_found(s: Seq<TrieChild>, key: u8, i: int)
    requires
        0 <= i < s.len(),
        s[i].key == key,
        forall|k: int| 0 <= k < i ==> #[trigger] s[k].key != key,
    ensures
        find_key(s, key) == i,
    decreases s.len(),
{
    if i > 0 {
        assert(s[0].key != key);
        lemma_find_key_found(s.drop_first(), key, i - 1);
        assert forall|k: int| 1 <= k < s.len() implies s.drop_first()[k - 1] == s[k] by {
        }
    }
}

/// A node of the trie.
pub struct TrieNode {
    pass: usize,
    stop: usize,
    children: Vec<TrieChild>,
}

impl TrieNode {
    /// The children, as a sequence of labelled edges.
    pub closed spec fn spec_children(&self) -> Seq<TrieChild> {
        self.children@
    }

    /// How many words passed through this node.
    pub closed spec fn spec_pass(&self) -> nat {
        self.pass as nat
    }

    /// How many words stopped at this node.
    pub closed spec fn spec_stop(&self) -> nat {
        self.stop as nat
    }

    /// No two children carry one label.
    pub open spec fn keys_unique(&self) -> bool {
        forall|i: int, j: int|
            0 <= i < j < self.spec_children().len() ==> #[trigger] self.spec_children()[i].key
                != #[trigger] self.spec_children()[j].key
    }

    /// A fresh node: no traffic, no children.
    pub fn new() -> (r: Self)
        ensures
            r.spec_pass() == 0,
            r.spec_stop() == 0,
            r.spec_children().len() == 0,
            r.keys_unique(),
    {
        TrieNode { pass: 0, stop: 0, children: Vec::new() }
    }

    /// Does a child labelled `value` exist?
    #[verifier::loop_isolation(false)]
    pub fn contains_key(&self, value: &u8) -> (r: bool)
        ensures
            r == (find_key(self.spec_children(), *value) >= 0),
    {
        proof {
            lemma_find_key(self.children@, *value);
        }
        let mut i: usize = 0;
        while i < self.children.len()
            invariant
                i <= self.children@.len(),
                forall|k: int| 0 <= k < i ==> #[trigger] self.children@[k].key != *value,
            decreases self.children@.len() - i,
        {
            if self.children[i].key == *value {
                proof {
                    lemma_find_key_found(self.children@, *value, i as int);
                }
                return true;
            }
            i += 1;
        }
        proof {
            if find_key(self.children@, *value) >= 0 {
                assert(self.children@[find_key(self.children@, *value)].key == *value);
            }
        }
        false
    }

    /// The child labelled `value`, if any.
    #[verifier::loop_isolation(false)]
    pub fn get(&self, value: &u8) -> (r: Option<&TrieNode>)
        ensures
            match r {
                Some(c) => find_key(self.spec_children(), *value) >= 0 && *c
                    == self.spec_children()[find_key(self.spec_children(), *value)].node,
                None => find_key(self.spec_children(), *value) < 0,
            },
    {
        proof {
            lemma_find_key(self.children@, *value);
        }
        let mut i: usize = 0;
        while i < self.children.len()
            invariant
                i <= self.children@.len(),
                forall|k: int| 0 <= k < i ==> #[trigger] self.children@[k].key != *value,
            decreases self.children@.len() - i,
        {
            if self.children[i].key == *value {
                proof {
                    lemma_find_key_found(self.children@, *value, i as int);
                }
                return Some(&self.children[i].node);
            }
            i += 1;
        }
        proof {
            if find_key(self.children@, *value) >= 0 {
                assert(self.children@[find_key(self.children@, *value)].key == *value);
            }
        }
        None
    }

    /// Add an empty child labelled `value` if none exists; report
    /// whether one was added.
    pub fn add_new_if_not(&mut self, value: &u8) -> (r: bool)
        ensures
            r == (find_key(old(self).spec_children(), *value) < 0),
            !r ==> *final(self) == *old(self),
            r ==> final(self).spec_children().len() == old(self).spec_children().len() + 1
                && final(self).spec_children().last().key == *value
                && final(self).spec_children().last().node.spec_pass() == 0
                && final(self).spec_children().last().node.spec_stop() == 0
                && final(self).spec_children().last().node.spec_children().len() == 0 && (forall|
            k: int|
                0 <= k < old(self).spec_children().len()
                    ==> #[trigger] final(self).spec_children()[k] == old(self).spec_children()[k])
                && final(self).spec_pass() == old(self).spec_pass() && final(self).spec_stop()
                == old(self).spec_stop(),
            old(self).keys_unique() ==> final(self).keys_unique(),
            find_key(final(self).spec_children(), *value) >= 0,
    {
        proof {
            lemma_find_key(self.children@, *value);
        }
        if self.contains_key(value) {
            return false;
        }
        self.children.push(TrieChild { key: *value, node: TrieNode::new() });
        proof {
            lemma_find_key(self.children@, *value);
            let s = self.children@;
            if find_key(s, *value) < 0 {
                assert(s[s.len() - 1].key == *value);
            }
            assert forall|i: int, j: int|
                0 <= i < j < s.len() && old(self).keys_unique() implies #[trigger] s[i].key
                != #[trigger] s[j].key by {
                lemma_find_key(old(self).children@, *value);
                if j == s.len() - 1 {
                    assert(old(self).children@[i].key != *value);
                }
            }
        }
        true
    }

    /// Record one more word passing through; the counter saturates at
    /// the machine limit.
    pub fn pass(&mut self)
        ensures
            final(self).spec_pass() == (if old(self).spec_pass() < usize::MAX {
                old(self).spec_pass() + 1
            } else {
                old(self).spec_pass()
            }),
            final(self).spec_stop() == old(self).spec_stop(),
            final(self).spec_children() == old(self).spec_children(),
    {
        if self.pass < usize::MAX {
            self.pass = self.pass + 1;
        }
    }

    /// Record one more word stopping here; the counter saturates at the
    /// machine limit.
    pub fn stop(&mut self)
        ensures
            final(self).spec_stop() == (if old(self).spec_stop() < usize::MAX {
                old(self).spec_stop() + 1
            } else {
                old(self).spec_stop()
            }),
            final(self).spec_pass() == old(self).spec_pass(),
            final(self).spec_children() == old(self).spec_children(),
    {
        if self.stop < usize::MAX {
            self.stop = self.stop + 1;
        }
    }

    /// Store the suffix `values[i..]` below this node: bump this node's
    /// counters and recurse along (or create) the labelled edges.
    #[verifier::loop_isolation(false)]
    pub(crate) fn insert_path(node: TrieNode, values: &Vec<u8>, i: usize) -> (r: TrieNode)
        requires
            i <= values@.len(),
        ensures
            i == values@.len() ==> r.spec_stop() == (if node.spec_stop() < usize::MAX {
                node.spec_stop() + 1
            } else {
                node.spec_stop()
            }) && r.spec_pass() == node.spec_pass(),
            i < values@.len() ==> r.spec_pass() == (if node.spec_pass() < usize::MAX {
                node.spec_pass() + 1
            } else {
                node.spec_pass()
            }) && r.spec_stop() == node.spec_stop(),
        decreases values@.len() - i,
    {
        let mut node = node;
        if i == values.len() {
            node.stop();
            node
        } else {
            node.pass();
            let key = values[i];
            node.add_new_if_not(&key);
            proof {
                lemma_find_key(node.children@, key);
            }
            let n = node.children.len();
            let mut idx: usize = 0;
            let mut found = false;
            while idx < n && !found
                invariant
                    idx <= n,
                    n == node.children@.len(),
                    found ==> idx < n && node.children@[idx as int].key == key,
                    !found ==> forall|k: int|
                        0 <= k < idx ==> #[trigger] node.children@[k].key != key,
                decreases n - idx + (if found {
                    0int
                } else {
                    1int
                }),
            {
                if node.children[idx].key == key {
                    found = true;
                } else {
                    idx += 1;
                }
            }
            if found {
                let ghost before = node;
                let ch = node.children.remove(idx);
                let grown = TrieNode::insert_path(ch.node, values, i + 1);
                node.children.insert(idx, TrieChild { key: ch.key, node: grown });
                proof {
                    assert(node.spec_pass() == before.spec_pass());
                    assert(node.spec_stop() == before.spec_stop());
                }
                node
            } else {
                proof {
                    assert(node.children@[find_key(node.children@, key)].key == key);
                    assert(false);
                }
                node
            }
        }
    }

    /// How many words passed through this node.
    pub fn n_pass(&self) -> (r: usize)
        ensures
            r == self.spec_pass(),
    {
        self.pass
    }

    /// How many words stopped at this node.
    pub fn n_stop(&self) -> (r: usize)
        ensures
            r == self.spec_stop(),
    {
        self.stop
    }
}

} // verus!
