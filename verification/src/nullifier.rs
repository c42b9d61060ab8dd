//! The registry of spent nullifier hashes.
//!
//! A nullifier hash, once revealed by an authorized withdrawal, is burned
//! forever: the registry only ever grows, and a key is never removed or
//! overwritten. Keys are the canonical string rendering of the hash.

use vstd::prelude::*;

verus! {

/// A monotonic set of spent nullifier-hash keys.
#[derive(Clone, Debug, PartialEq)]
pub struct NullifierRegistry {
    pub spent: Vec<String>,
}

impl NullifierRegistry {
    /// Whether the key has been marked spent.
    pub open spec fn spec_contains(self, key: Seq<char>) -> bool {
        exists|k: int| 0 <= k < self.spent@.len() && (#[trigger] self.spent@[k])@ == key
    }

    /// An empty registry: no nullifier has been spent yet.
    pub fn new() -> (r: Self)
        ensures
            r.spent@.len() == 0,
            forall|s: Seq<char>| !r.spec_contains(s),
    {
        NullifierRegistry { spent: Vec::new() }
    }

    /// Decides whether the key has been marked spent.
    pub fn contains(&self, key: &String) -> (r: bool)
        ensures
            r == self.spec_contains(key@),
    {
        let n = self.spent.len();
        let mut i: usize = 0;
        while i < n
            invariant
                i <= n,
                n == self.spent@.len(),
                forall|k: int| 0 <= k < i ==> (#[trigger] self.spent@[k])@ != key@,
            decreases n - i,
        {
            if self.spent[i].eq(key) {
                return true;
            }
            i = i + 1;
        }
        false
    }

    /// Marks the key spent, irreversibly: everything spent before stays
    /// spent, and the key is spent from now on.
    pub fn mark_spent(&mut self, key: String)
        ensures
            final(self).spent@ == old(self).spent@.push(key),
            forall|s: Seq<char>|
                final(self).spec_contains(s) == (old(self).spec_contains(s) || s == key@),
    {
        let ghost kv = key@;
        self.spent.push(key);
        proof {
            assert forall|s: Seq<char>|
                self.spec_contains(s) == (old(self).spec_contains(s) || s == kv) by {
                if old(self).spec_contains(s) {
                    let k = choose|k: int|
                        0 <= k < old(self).spent@.len() && (#[trigger] old(self).spent@[k])@
                            == s;
                    assert(self.spent@[k]@ == s);
                }
                if s == kv {
                    assert(self.spent@[self.spent@.len() - 1]@ == s);
                }
                if self.spec_contains(s) {
                    let k = choose|k: int|
                        0 <= k < self.spent@.len() && (#[trigger] self.spent@[k])@ == s;
                    if k < old(self).spent@.len() {
                        assert(old(self).spent@[k]@ == s);
                    }
                }
            }
        }
    }
}

} // verus!
