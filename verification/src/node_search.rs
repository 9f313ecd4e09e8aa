use vstd::prelude::*;

use crate::lookup::binary_lookup;
use crate::node::BtreeNode;
use crate::node_map::lemma_seq_wf_index;

verus! {

impl<V> BtreeNode<V> {
    /// Whether the subtree rooted here holds `key`.
    pub fn subtree_has_key(&self, key: i32) -> (r: bool)
        requires
            self.wf(),
        ensures
            r == self.entry_map().dom().contains(key),
        decreases *self,
    {
        proof {
            self.lemma_route(key);
        }
        match binary_lookup(&self.keys, key) {
            Ok(_) => true,
            Err(i) => {
                if self.is_leaf() {
                    false
                } else {
                    proof {
                        lemma_seq_wf_index(self.children@, self.max_count, i as int);
                    }
                    self.children[i].subtree_has_key(key)
                }
            },
        }
    }
}

impl<V: Copy> BtreeNode<V> {
    /// Looks `key` up in the subtree rooted here and returns the stored
    /// entry, or nothing when the subtree does not hold the key.
    pub fn search(&self, key: i32) -> (r: Option<(i32, V)>)
        requires
            self.wf(),
        ensures
            r == (if self.entry_map().dom().contains(key) {
                Option::Some((key, self.entry_map()[key]))
            } else {
                Option::None::<(i32, V)>
            }),
        decreases *self,
    {
        proof {
            self.lemma_route(key);
        }
        match binary_lookup(&self.keys, key) {
            Ok(i) => Some((self.keys[i], self.values[i])),
            Err(i) => {
                if self.is_leaf() {
                    None
                } else {
                    proof {
                        lemma_seq_wf_index(self.children@, self.max_count, i as int);
                    }
                    self.children[i].search(key)
                }
            },
        }
    }
}

} // verus!
