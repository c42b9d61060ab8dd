//! The incremental Merkle accumulator with bounded root history.
//!
//! A fixed-depth binary hash tree filled left to right. Each insert walks
//! the path from the new leaf to the root in O(depth), carrying the
//! `filled_subtrees` cache of left siblings, and records the new root in a
//! ring buffer of the last `ROOT_HISTORY_SIZE` roots. A root is "known"
//! exactly when it is non-zero and still present in that ring.

use vstd::prelude::*;
use vstd::arithmetic::power2::pow2;
use vstd::arithmetic::power2::lemma_pow2_unfold;
use vstd::arithmetic::power2::lemma_pow2_pos;
use vstd::arithmetic::power2::lemma_pow2_strictly_increases;
use vstd::arithmetic::power2::lemma2_to64;
use vstd::arithmetic::div_mod::lemma_div_denominator;
use vstd::arithmetic::div_mod::lemma_fundamental_div_mod;
use vstd::arithmetic::div_mod::lemma_mod_multiples_vanish;
use vstd::arithmetic::div_mod::lemma_small_mod;
use vstd::arithmetic::div_mod::lemma_basic_div;
use crate::field::FieldElement;
use crate::field::spec_zero_leaf_value;
use crate::hash::spec_hash2;
use crate::hash::poseidon_hash_pair;
use poseidon_rs::Poseidon;

verus! {

/// How many of the most recent roots the accumulator remembers.
pub const ROOT_HISTORY_SIZE: u32 = 100;

/// The hash of the all-empty subtree of height `i`: the fixed empty-leaf
/// value at height 0, and the hash of two copies of the next smaller empty
/// subtree above it.
pub open spec fn zeros_chain(i: nat) -> nat
    decreases i,
{
    if i == 0 {
        spec_zero_leaf_value()
    } else {
        let z = zeros_chain((i - 1) as nat);
        spec_hash2(z, z)
    }
}

/// The root of an all-empty tree of the given depth.
pub open spec fn initial_root(levels: nat) -> nat
    recommends
        levels >= 1,
{
    let z = zeros_chain((levels - 1) as nat);
    spec_hash2(z, z)
}

/// The running hash of the freshly inserted leaf after `lvl` levels of the
/// path walk: at each level the running value is the left child paired with
/// the empty subtree when the index there is even, and the right child
/// paired with the cached left sibling when it is odd.
pub open spec fn running_hash(
    leaf: nat,
    idx0: nat,
    zeros: Seq<FieldElement>,
    filled: Seq<FieldElement>,
    lvl: nat,
) -> nat
    decreases lvl,
{
    if lvl == 0 {
        leaf
    } else {
        let prev = running_hash(leaf, idx0, zeros, filled, (lvl - 1) as nat);
        if (idx0 / pow2((lvl - 1) as nat)) % 2 == 0 {
            spec_hash2(prev, zeros[lvl - 1]@)
        } else {
            spec_hash2(filled[lvl - 1]@, prev)
        }
    }
}

/// An append-only Merkle tree of fixed depth `levels` that keeps the last
/// `ROOT_HISTORY_SIZE` roots it has produced.
#[allow(non_snake_case)]
#[derive(Clone, Debug, PartialEq)]
pub struct MerkleTreeWithHistory {
    pub levels: u32,
    pub filled_subtrees: Vec<FieldElement>,
    pub zeros: Vec<FieldElement>,
    pub current_root_index: u32,
    pub next_index: u32,
    pub roots: Vec<FieldElement>,
    pub ZERO_VALUE: FieldElement,
}

impl MerkleTreeWithHistory {
    /// Structural well-formedness: sizes, bounds, canonicity of every
    /// stored element, and the precomputed empty-subtree hashes.
    pub open spec fn wf(self) -> bool {
        &&& 1 <= self.levels < 32
        &&& self.zeros@.len() == self.levels
        &&& self.filled_subtrees@.len() == self.levels
        &&& self.roots@.len() == ROOT_HISTORY_SIZE
        &&& self.current_root_index < ROOT_HISTORY_SIZE
        &&& self.next_index <= pow2(self.levels as nat)
        &&& self.ZERO_VALUE@ == spec_zero_leaf_value()
        &&& forall|i: int|
            0 <= i < self.levels ==> (#[trigger] self.zeros@[i])@ == zeros_chain(i as nat)
        &&& forall|i: int| 0 <= i < self.levels ==> (#[trigger] self.zeros@[i]).canonical()
        &&& forall|i: int|
            0 <= i < self.levels ==> (#[trigger] self.filled_subtrees@[i]).canonical()
        &&& forall|i: int|
            0 <= i < ROOT_HISTORY_SIZE ==> (#[trigger] self.roots@[i]).canonical()
    }

    /// The most recently produced root.
    pub open spec fn spec_last_root(self) -> nat {
        self.roots@[self.current_root_index as int]@
    }

    /// A root is known when it is non-zero and still held in the ring of
    /// remembered roots.
    pub open spec fn spec_known_root(self, v: nat) -> bool {
        v != 0 && exists|i: int|
            0 <= i < ROOT_HISTORY_SIZE && (#[trigger] self.roots@[i])@ == v
    }

    /// The state a freshly constructed tree of the given depth is in:
    /// nothing inserted, the empty-tree root in slot zero of the ring, and
    /// every other slot zeroed.
    pub open spec fn is_fresh(self, levels: u32) -> bool {
        &&& self.wf()
        &&& self.levels == levels
        &&& self.next_index == 0
        &&& self.current_root_index == 0
        &&& self.roots@[0]@ == initial_root(levels as nat)
        &&& forall|i: int| 1 <= i < ROOT_HISTORY_SIZE ==> (#[trigger] self.roots@[i])@ == 0
        &&& forall|i: int|
            0 <= i < levels ==> (#[trigger] self.filled_subtrees@[i])@ == zeros_chain(i as nat)
    }

    /// How one insert changes the state: on success the result is the index
    /// the leaf was assigned, the ring gains the new root at the advanced
    /// write position, and `filled_subtrees` is refreshed exactly at the
    /// levels where the new leaf's path is a left child; at capacity the
    /// call reports failure and changes nothing.
    pub open spec fn insert_transition(pre: Self, leaf: nat, post: Self, res: Option<u32>) -> bool {
        if pre.next_index < pow2(pre.levels as nat) {
            let new_root = running_hash(
                leaf,
                pre.next_index as nat,
                pre.zeros@,
                pre.filled_subtrees@,
                pre.levels as nat,
            );
            &&& res == Some(pre.next_index)
            &&& post.levels == pre.levels
            &&& post.ZERO_VALUE == pre.ZERO_VALUE
            &&& post.zeros@ == pre.zeros@
            &&& post.next_index == pre.next_index + 1
            &&& post.current_root_index == ((pre.current_root_index + 1) % (ROOT_HISTORY_SIZE as int))
            &&& post.roots@.len() == ROOT_HISTORY_SIZE
            &&& post.filled_subtrees@.len() == pre.levels
            &&& post.roots@[post.current_root_index as int]@ == new_root
            &&& forall|i: int|
                0 <= i < ROOT_HISTORY_SIZE && i != post.current_root_index
                    ==> #[trigger] post.roots@[i] == pre.roots@[i]
            &&& forall|l: int|
                0 <= l < pre.levels ==> (#[trigger] post.filled_subtrees@[l])@ == (
                if (pre.next_index as nat / pow2(l as nat)) % 2 == 0 {
                    running_hash(
                        leaf,
                        pre.next_index as nat,
                        pre.zeros@,
                        pre.filled_subtrees@,
                        l as nat,
                    )
                } else {
                    pre.filled_subtrees@[l]@
                })
        } else {
            &&& res is None
            &&& post == pre
        }
    }

    /// Builds the empty tree of the given depth: precomputes the
    /// empty-subtree hash at every level, seeds the left-sibling cache with
    /// those hashes, and records the empty tree's root.
    pub fn new(hasher: &Poseidon, levels: u32) -> (r: Self)
        requires
            1 <= levels < 32,
        ensures
            r.wf(),
            r.is_fresh(levels),
    {
        let zero_value = FieldElement::zero_leaf();
        let mut zeros: Vec<FieldElement> = Vec::new();
        let mut filled_subtrees: Vec<FieldElement> = Vec::new();
        let mut current_zero = zero_value;
        zeros.push(current_zero);
        filled_subtrees.push(current_zero);
        let mut i: u32 = 1;
        while i < levels
            invariant
                1 <= i <= levels,
                zeros@.len() == i,
                filled_subtrees@ == zeros@,
                current_zero == zeros@[i - 1],
                current_zero.canonical(),
                forall|k: int| 0 <= k < i ==> (#[trigger] zeros@[k])@ == zeros_chain(k as nat),
                forall|k: int| 0 <= k < i ==> (#[trigger] zeros@[k]).canonical(),
            decreases levels - i,
        {
            current_zero = poseidon_hash_pair(hasher, &current_zero, &current_zero);
            zeros.push(current_zero);
            filled_subtrees.push(current_zero);
            i = i + 1;
        }
        let root0 = poseidon_hash_pair(hasher, &current_zero, &current_zero);
        let mut roots: Vec<FieldElement> = Vec::new();
        roots.push(root0);
        let mut j: u32 = 1;
        while j < ROOT_HISTORY_SIZE
            invariant
                1 <= j <= ROOT_HISTORY_SIZE,
                roots@.len() == j,
                roots@[0] == root0,
                forall|k: int| 1 <= k < j ==> (#[trigger] roots@[k])@ == 0,
                forall|k: int| 0 <= k < j ==> (#[trigger] roots@[k]).canonical(),
                root0.canonical(),
            decreases ROOT_HISTORY_SIZE - j,
        {
            roots.push(FieldElement::zero());
            j = j + 1;
        }
        MerkleTreeWithHistory {
            levels,
            filled_subtrees,
            zeros,
            current_root_index: 0,
            next_index: 0,
            roots,
            ZERO_VALUE: zero_value,
        }
    }

    /// Compresses an ordered pair of children into their parent node hash.
    pub fn hash_left_right(
        &self,
        hasher: &Poseidon,
        left: &FieldElement,
        right: &FieldElement,
    ) -> (r: FieldElement)
        requires
            left.canonical(),
            right.canonical(),
        ensures
            r@ == spec_hash2(left@, right@),
            r.canonical(),
    {
        poseidon_hash_pair(hasher, left, right)
    }

    /// Appends a leaf, returning its assigned index, or `None` (leaving the
    /// tree untouched) when the tree already holds `2^levels` leaves.
    pub fn insert(&mut self, hasher: &Poseidon, leaf: &FieldElement) -> (r: Option<u32>)
        requires
            old(self).wf(),
            leaf.canonical(),
        ensures
            final(self).wf(),
            Self::insert_transition(*old(self), leaf@, *final(self), r),
    {
        let cap = pow2_u32(self.levels);
        let idx0 = self.next_index;
        if idx0 == cap {
            return None;
        }
        self.next_index = idx0 + 1;
        let mut current = *leaf;
        let mut idx = idx0;
        let mut i: u32 = 0;
        proof {
            lemma2_to64();
        }
        while i < self.levels
            invariant
                old(self).wf(),
                leaf.canonical(),
                i <= self.levels,
                idx0 == old(self).next_index,
                idx0 < pow2(self.levels as nat),
                self.levels == old(self).levels,
                self.zeros@ == old(self).zeros@,
                self.roots@ == old(self).roots@,
                self.current_root_index == old(self).current_root_index,
                self.next_index == idx0 + 1,
                self.ZERO_VALUE == old(self).ZERO_VALUE,
                self.filled_subtrees@.len() == self.levels,
                idx == idx0 as nat / pow2(i as nat),
                current@ == running_hash(
                    leaf@,
                    idx0 as nat,
                    old(self).zeros@,
                    old(self).filled_subtrees@,
                    i as nat,
                ),
                current.canonical(),
                forall|l: int|
                    i <= l < self.levels
                        ==> #[trigger] self.filled_subtrees@[l] == old(self).filled_subtrees@[l],
                forall|l: int|
                    0 <= l < i ==> (#[trigger] self.filled_subtrees@[l])@ == (
                    if (idx0 as nat / pow2(l as nat)) % 2 == 0 {
                        running_hash(
                            leaf@,
                            idx0 as nat,
                            old(self).zeros@,
                            old(self).filled_subtrees@,
                            l as nat,
                        )
                    } else {
                        old(self).filled_subtrees@[l]@
                    }),
                forall|l: int|
                    0 <= l < i ==> (#[trigger] self.filled_subtrees@[l]).canonical(),
            decreases self.levels - i,
        {
            let iu = i as usize;
            if idx % 2 == 0 {
                let right = self.zeros[iu];
                self.filled_subtrees[iu] = current;
                current = self.hash_left_right(hasher, &current, &right);
            } else {
                let left = self.filled_subtrees[iu];
                current = self.hash_left_right(hasher, &left, &current);
            }
            proof {
                lemma_pow2_pos(i as nat);
                lemma_pow2_unfold((i + 1) as nat);
                lemma_div_denominator(idx0 as int, pow2(i as nat) as int, 2);
            }
            idx = idx / 2;
            i = i + 1;
        }
        self.current_root_index = (self.current_root_index + 1) % ROOT_HISTORY_SIZE;
        let cri = self.current_root_index as usize;
        self.roots[cri] = current;
        Some(idx0)
    }

    /// Decides whether the argument was one of the last
    /// `ROOT_HISTORY_SIZE` roots this tree produced. A zero root is never
    /// known, so an uninitialized root can never pass the check. The scan
    /// walks the ring backward from the most recent entry and so visits
    /// every slot once.
    pub fn is_known_root(&self, root: &FieldElement) -> (r: bool)
        requires
            self.wf(),
        ensures
            r == self.spec_known_root(root@),
    {
        if root.is_zero() {
            return false;
        }
        let cri = self.current_root_index;
        let mut j: u32 = 0;
        while j < ROOT_HISTORY_SIZE
            invariant
                self.wf(),
                root@ != 0,
                j <= ROOT_HISTORY_SIZE,
                cri == self.current_root_index,
                forall|k: int|
                    0 <= k < j ==> (#[trigger] self.roots@[ring_slot(cri as int, k)])@ != root@,
            decreases ROOT_HISTORY_SIZE - j,
        {
            let slot = if cri >= j {
                cri - j
            } else {
                cri + ROOT_HISTORY_SIZE - j
            };
            proof {
                assert(slot == ring_slot(cri as int, j as int));
            }
            if self.roots[slot as usize].equals(root) {
                return true;
            }
            j = j + 1;
        }
        proof {
            assert forall|i: int| 0 <= i < ROOT_HISTORY_SIZE implies (#[trigger] self.roots@[i])@
                != root@ by {
                let k: int = if i <= cri { cri - i } else { cri + ROOT_HISTORY_SIZE - i };
                assert(0 <= k < ROOT_HISTORY_SIZE);
                assert(ring_slot(cri as int, k) == i);
            }
        }
        false
    }

    /// Returns the most recently produced root.
    pub fn get_last_root(&self) -> (r: FieldElement)
        requires
            self.wf(),
        ensures
            r@ == self.spec_last_root(),
            r.canonical(),
    {
        self.roots[self.current_root_index as usize]
    }
}

/// The root of the binary subtree of height `h` whose leftmost leaf
/// position is `start`, over the given vector of inserted leaves;
/// positions beyond the vector hold the fixed empty-leaf value.
pub open spec fn subtree_root(leaves: Seq<nat>, h: nat, start: nat) -> nat
    decreases h,
{
    if h == 0 {
        if start < leaves.len() {
            leaves[start as int]
        } else {
            spec_zero_leaf_value()
        }
    } else {
        spec_hash2(
            subtree_root(leaves, (h - 1) as nat, start),
            subtree_root(leaves, (h - 1) as nat, (start + pow2((h - 1) as nat)) as nat),
        )
    }
}

/// A subtree that lies wholly beyond the inserted leaves hashes to the
/// empty-subtree value of its height.
proof fn lemma_subtree_root_empty(leaves: Seq<nat>, h: nat, start: nat)
    requires
        start >= leaves.len(),
    ensures
        subtree_root(leaves, h, start) == zeros_chain(h),
    decreases h,
{
    if h > 0 {
        lemma_subtree_root_empty(leaves, (h - 1) as nat, start);
        lemma_subtree_root_empty(leaves, (h - 1) as nat, (start + pow2((h - 1) as nat)) as nat);
    }
}

/// Extending the leaf vector beyond a subtree's range does not change
/// that subtree's root.
proof fn lemma_subtree_root_agree(a: Seq<nat>, b: Seq<nat>, h: nat, start: nat)
    requires
        a.len() <= b.len(),
        forall|i: int| 0 <= i < a.len() ==> a[i] == b[i],
        start + pow2(h) <= a.len(),
    ensures
        subtree_root(a, h, start) == subtree_root(b, h, start),
    decreases h,
{
    lemma2_to64();
    if h > 0 {
        lemma_pow2_unfold(h);
        lemma_subtree_root_agree(a, b, (h - 1) as nat, start);
        lemma_subtree_root_agree(a, b, (h - 1) as nat, (start + pow2((h - 1) as nat)) as nat);
    }
}

/// The leftmost leaf position under the ancestor of leaf `k` at height
/// `j`, once that ancestor is moved one subtree to the left. When the
/// ancestor is a right child this is its completed left sibling's range.
spec fn left_sibling_start(k: nat, j: nat) -> nat {
    (((k / pow2(j)) - 1) * pow2(j)) as nat
}

/// The cache invariant of the accumulator: at every height where the
/// ancestor of the next leaf is a right child, `filled_subtrees` holds
/// the root of the completed subtree just left of it.
spec fn filled_cache_ok(leaves: Seq<nat>, k: nat, levels: u32, filled: Seq<FieldElement>) -> bool {
    forall|j: int|
        0 <= j < levels && ((k / pow2(j as nat)) % 2 == 1) ==> (#[trigger] filled[j])@
            == subtree_root(leaves, j as nat, left_sibling_start(k, j as nat))
}

/// Along the insert path of leaf number `k`, the running hash after `i`
/// levels is the root of the height-`i` subtree containing leaf `k`,
/// over the first `k + 1` leaves.
proof fn lemma_running_hash_subtree(
    leaves: Seq<nat>,
    k: nat,
    levels: u32,
    zeros: Seq<FieldElement>,
    filled: Seq<FieldElement>,
    i: nat,
)
    requires
        k < leaves.len(),
        i <= levels,
        levels < 32,
        zeros.len() == levels,
        filled.len() == levels,
        forall|j: int| 0 <= j < levels ==> (#[trigger] zeros[j])@ == zeros_chain(j as nat),
        filled_cache_ok(leaves, k, levels, filled),
    ensures
        running_hash(leaves[k as int], k, zeros, filled, i) == subtree_root(
            leaves.take(k as int + 1),
            i,
            (k / pow2(i)) * pow2(i),
        ),
    decreases i,
{
    let t = leaves.take(k as int + 1);
    assert(forall|x: int| 0 <= x < k + 1 ==> t[x] == leaves[x]);
    lemma2_to64();
    if i == 0 {
        assert(k / pow2(0) == k);
        assert(t[k as int] == leaves[k as int]);
        assert((k / pow2(0)) * pow2(0) == k) by (nonlinear_arith)
            requires
                pow2(0) == 1,
                k / pow2(0) == k,
        ;
    } else {
        let d = pow2((i - 1) as nat);
        let q = k / d;
        lemma_pow2_pos((i - 1) as nat);
        lemma_pow2_unfold(i);
        lemma_div_denominator(k as int, d as int, 2);
        lemma_fundamental_div_mod(k as int, d as int);
        lemma_fundamental_div_mod(q as int, 2);
        lemma_running_hash_subtree(leaves, k, levels, zeros, filled, (i - 1) as nat);
        let s_child: nat = q * d;
        let s: nat = (k / pow2(i)) * pow2(i);
        let r: nat = k % d;
        assert(k / pow2(i) == q / 2);
        assert(k == d * q + r && r < d);
        if q % 2 == 0 {
            assert(q == 2 * (q / 2));
            assert(s == s_child) by (nonlinear_arith)
                requires
                    s == (q / 2) * (2 * d),
                    s_child == q * d,
                    q == 2 * (q / 2),
            ;
            assert(k < (q + 1) * d) by (nonlinear_arith)
                requires
                    k == d * q + r,
                    r < d,
            ;
            assert(s + d >= k + 1) by (nonlinear_arith)
                requires
                    s == q * d,
                    k < (q + 1) * d,
            ;
            lemma_subtree_root_empty(t, (i - 1) as nat, (s + d) as nat);
            assert(zeros[i - 1]@ == zeros_chain((i - 1) as nat));
        } else {
            assert(q == 2 * (q / 2) + 1);
            assert(s == (q - 1) * d && s + d == s_child) by (nonlinear_arith)
                requires
                    s == (q / 2) * (2 * d),
                    s_child == q * d,
                    q == 2 * (q / 2) + 1,
            ;
            assert(q * d <= k) by (nonlinear_arith)
                requires
                    k == d * q + r,
                    0 <= r,
            ;
            assert(filled[i - 1]@ == subtree_root(leaves, (i - 1) as nat, left_sibling_start(k, (i - 1) as nat)));
            assert(left_sibling_start(k, (i - 1) as nat) == s) by (nonlinear_arith)
                requires
                    left_sibling_start(k, (i - 1) as nat) == ((q - 1) * d) as nat,
                    s == (q - 1) * d,
            ;
            lemma_subtree_root_agree(t, leaves, (i - 1) as nat, s);
            assert(subtree_root(t, (i - 1) as nat, s) == filled[i - 1]@);
        }
    }
}

/// Along an insert trace the accumulator's cache invariant holds, and
/// the last root is the Merkle root of the leaves inserted so far.
proof fn lemma_insert_trace_merkle(
    trace: Seq<MerkleTreeWithHistory>,
    leaves: Seq<nat>,
    results: Seq<Option<u32>>,
    levels: u32,
    k: int,
)
    requires
        trace[0].is_fresh(levels),
        insert_steps_ok(trace, leaves, results),
        leaves.len() <= pow2(levels as nat),
        forall|j: int| 0 <= j <= leaves.len() ==> (#[trigger] trace[j]).wf(),
        0 <= k <= leaves.len(),
    ensures
        filled_cache_ok(leaves, k as nat, levels, trace[k].filled_subtrees@),
        trace[k].spec_last_root() == subtree_root(leaves.take(k), levels as nat, 0),
    decreases k,
{
    if k == 0 {
        lemma_subtree_root_empty(leaves.take(0), levels as nat, 0);
        assert forall|j: int| 0 <= j < levels implies (0nat / #[trigger] pow2(j as nat)) % 2
            == 0 by {
            lemma_pow2_pos(j as nat);
        }
    } else {
        let m = k - 1;
        lemma_insert_trace_merkle(trace, leaves, results, levels, m);
        lemma_insert_trace_next_index(trace, leaves, results, levels, m);
        assert(MerkleTreeWithHistory::insert_transition(
            trace[m],
            leaves[m],
            trace[k],
            results[m],
        ));
        let pre = trace[m];
        let post = trace[k];
        lemma_running_hash_subtree(
            leaves,
            m as nat,
            levels,
            pre.zeros@,
            pre.filled_subtrees@,
            levels as nat,
        );
        lemma_pow2_pos(levels as nat);
        lemma_basic_div(m, pow2(levels as nat) as int);
        assert(m as nat / pow2(levels as nat) == 0);
        assert((m as nat / pow2(levels as nat)) * pow2(levels as nat) == 0) by (nonlinear_arith)
            requires
                m as nat / pow2(levels as nat) == 0,
        ;
        assert(leaves.take(m + 1) == leaves.take(k));
        assert forall|j: int|
            0 <= j < levels && ((k as nat / pow2(j as nat)) % 2 == 1) implies (
        #[trigger] post.filled_subtrees@[j])@ == subtree_root(
            leaves,
            j as nat,
            left_sibling_start(k as nat, j as nat),
        ) by {
            let d: nat = pow2(j as nat);
            lemma_pow2_pos(j as nat);
            let qm: nat = m as nat / d;
            let qk: nat = k as nat / d;
            lemma_fundamental_div_mod(m, d as int);
            lemma_fundamental_div_mod(k, d as int);
            let rm: nat = m as nat % d;
            let rk: nat = k as nat % d;
            assert(qm <= qk && qk <= qm + 1) by (nonlinear_arith)
                requires
                    m == d * qm + rm,
                    k == d * qk + rk,
                    rm < d,
                    rk < d,
                    0 <= rm,
                    0 <= rk,
                    k == m + 1,
                    d > 0,
            ;
            if qm % 2 == 0 {
                assert(qk == qm + 1);
                lemma_running_hash_subtree(
                    leaves,
                    m as nat,
                    levels,
                    pre.zeros@,
                    pre.filled_subtrees@,
                    j as nat,
                );
                assert(post.filled_subtrees@[j]@ == subtree_root(
                    leaves.take(m + 1),
                    j as nat,
                    qm * d,
                ));
                assert(qk * d <= k && qm * d + d == qk * d) by (nonlinear_arith)
                    requires
                        k == d * qk + rk,
                        0 <= rk,
                        qk == qm + 1,
                ;
                lemma_subtree_root_agree(leaves.take(k), leaves, j as nat, qm * d);
                assert(left_sibling_start(k as nat, j as nat) == qm * d) by (nonlinear_arith)
                    requires
                        left_sibling_start(k as nat, j as nat) == (((k as nat / d) - 1) * d) as nat,
                        qk == k as nat / d,
                        qk == qm + 1,
                ;
            } else {
                assert(qk == qm);
                assert(post.filled_subtrees@[j]@ == pre.filled_subtrees@[j]@);
                assert(pre.filled_subtrees@[j]@ == subtree_root(
                    leaves,
                    j as nat,
                    left_sibling_start(m as nat, j as nat),
                ));
                assert(left_sibling_start(m as nat, j as nat) == left_sibling_start(
                    k as nat,
                    j as nat,
                ));
            }
        }
    }
}

/// The accumulator's root invariant, abstractly: after any in-capacity
/// sequence of inserts, the last root is the Merkle root of the
/// fixed-depth tree whose leftmost leaf positions hold the inserted
/// values in order and whose remaining positions are empty — so the
/// online O(depth) insert computes the same root the full tree hash
/// would. Before any insert the last root is the all-empty tree's root.
pub proof fn lemma_last_root_is_merkle_root(
    trace: Seq<MerkleTreeWithHistory>,
    leaves: Seq<nat>,
    results: Seq<Option<u32>>,
    levels: u32,
)
    requires
        trace[0].is_fresh(levels),
        insert_steps_ok(trace, leaves, results),
        leaves.len() <= pow2(levels as nat),
        forall|j: int| 0 <= j <= leaves.len() ==> (#[trigger] trace[j]).wf(),
    ensures
        trace[leaves.len() as int].spec_last_root() == subtree_root(leaves, levels as nat, 0),
{
    lemma_insert_trace_merkle(trace, leaves, results, levels, leaves.len() as int);
    assert(leaves.take(leaves.len() as int) =~= leaves);
}

/// A freshly constructed tree answers root queries as promised: the
/// all-zero root is never known, and the tree's own initial root — its
/// last root — is known whenever it is a non-zero value.
pub proof fn lemma_fresh_tree_root_knowledge(t: MerkleTreeWithHistory, levels: u32)
    requires
        t.is_fresh(levels),
    ensures
        !t.spec_known_root(0),
        t.spec_last_root() == initial_root(levels as nat),
        initial_root(levels as nat) != 0 ==> t.spec_known_root(t.spec_last_root()),
{
    assert(t.roots@[0]@ == initial_root(levels as nat));
}

/// A trace of insertions: each neighbouring pair of states is one insert
/// of the matching leaf, with the matching result.
pub open spec fn insert_steps_ok(
    trace: Seq<MerkleTreeWithHistory>,
    leaves: Seq<nat>,
    results: Seq<Option<u32>>,
) -> bool {
    &&& trace.len() == leaves.len() + 1
    &&& results.len() == leaves.len()
    &&& forall|k: int|
        0 <= k < leaves.len() ==> MerkleTreeWithHistory::insert_transition(
            trace[k],
            #[trigger] leaves[k],
            trace[k + 1],
            results[k],
        )
}

/// Along any insert trace from a fresh tree that stays within capacity,
/// the k-th state has seen exactly k leaves.
proof fn lemma_insert_trace_next_index(
    trace: Seq<MerkleTreeWithHistory>,
    leaves: Seq<nat>,
    results: Seq<Option<u32>>,
    levels: u32,
    k: int,
)
    requires
        trace[0].is_fresh(levels),
        insert_steps_ok(trace, leaves, results),
        leaves.len() <= pow2(levels as nat),
        0 <= k <= leaves.len(),
    ensures
        trace[k].levels == levels,
        trace[k].next_index == k,
    decreases k,
{
    if k > 0 {
        lemma_insert_trace_next_index(trace, leaves, results, levels, k - 1);
        assert(MerkleTreeWithHistory::insert_transition(
            trace[k - 1],
            leaves[k - 1],
            trace[k],
            results[k - 1],
        ));
    }
}

/// Any sequence of inserts within capacity counts leaves exactly: after N
/// inserts `next_index` is N, and the k-th insert was assigned index k —
/// the indices come back strictly increasing from zero.
pub proof fn lemma_insert_sequence_counts(
    trace: Seq<MerkleTreeWithHistory>,
    leaves: Seq<nat>,
    results: Seq<Option<u32>>,
    levels: u32,
)
    requires
        trace[0].is_fresh(levels),
        insert_steps_ok(trace, leaves, results),
        leaves.len() <= pow2(levels as nat),
    ensures
        forall|k: int| 0 <= k <= leaves.len() ==> #[trigger] trace[k].next_index == k,
        forall|k: int| 0 <= k < leaves.len() ==> #[trigger] results[k] == Some(k as u32),
{
    assert forall|k: int| 0 <= k <= leaves.len() implies #[trigger] trace[k].next_index
        == k by {
        lemma_insert_trace_next_index(trace, leaves, results, levels, k);
    }
    assert forall|k: int| 0 <= k < leaves.len() implies #[trigger] results[k] == Some(
        k as u32,
    ) by {
        lemma_insert_trace_next_index(trace, leaves, results, levels, k);
        assert(MerkleTreeWithHistory::insert_transition(
            trace[k],
            leaves[k],
            trace[k + 1],
            results[k],
        ));
    }
}

/// Along an insert trace, the ring holds the roots of the last
/// `ROOT_HISTORY_SIZE` states, each in its slot, and the slots not yet
/// reached still hold zero.
proof fn lemma_insert_trace_ring(
    trace: Seq<MerkleTreeWithHistory>,
    leaves: Seq<nat>,
    results: Seq<Option<u32>>,
    levels: u32,
    n: int,
)
    requires
        trace[0].is_fresh(levels),
        insert_steps_ok(trace, leaves, results),
        leaves.len() <= pow2(levels as nat),
        forall|k: int| 0 <= k <= leaves.len() ==> (#[trigger] trace[k]).wf(),
        0 <= n <= leaves.len(),
    ensures
        trace[n].current_root_index == n % (ROOT_HISTORY_SIZE as int),
        forall|j: int|
            0 <= j <= n && n - ROOT_HISTORY_SIZE < j ==> trace[n].roots@[j % (
            ROOT_HISTORY_SIZE as int)]@ == (#[trigger] trace[j]).spec_last_root(),
        forall|i: int|
            n < i < ROOT_HISTORY_SIZE ==> (#[trigger] trace[n].roots@[i])@ == 0,
    decreases n,
{
    let h: int = ROOT_HISTORY_SIZE as int;
    if n == 0 {
        assert(trace[0].roots@[0]@ == trace[0].spec_last_root());
    } else {
        lemma_insert_trace_ring(trace, leaves, results, levels, n - 1);
        lemma_insert_trace_next_index(trace, leaves, results, levels, n - 1);
        assert(MerkleTreeWithHistory::insert_transition(
            trace[n - 1],
            leaves[n - 1],
            trace[n],
            results[n - 1],
        ));
        let pre = trace[n - 1];
        let post = trace[n];
        assert(post.current_root_index == (pre.current_root_index + 1) % h);
        assert(((n - 1) % h + 1) % h == n % h) by {
            lemma_fundamental_div_mod(n - 1, h);
            lemma_mod_multiples_vanish((n - 1) / h, (n - 1) % h + 1, h);
            if (n - 1) % h + 1 < h {
                lemma_small_mod(((n - 1) % h + 1) as nat, h as nat);
            }
        }
        assert forall|j: int|
            0 <= j <= n && n - h < j implies post.roots@[j % h]@ == (#[trigger] trace[j]).spec_last_root() by {
            if j == n {
                assert(post.roots@[post.current_root_index as int]@
                    == post.spec_last_root());
            } else {
                assert(pre.roots@[j % h]@ == trace[j].spec_last_root());
                assert(j % h != n % h) by {
                    lemma_fundamental_div_mod(j, h);
                    lemma_fundamental_div_mod(n, h);
                }
                assert(post.roots@[j % h] == pre.roots@[j % h]);
            }
        }
        assert forall|i: int| n < i < h implies (#[trigger] post.roots@[i])@ == 0 by {
            assert(pre.roots@[i]@ == 0);
            assert(n % h == n) by {
                lemma_small_mod(n as nat, h as nat);
            }
            assert(post.roots@[i] == pre.roots@[i]);
        }
    }
}

/// The bounded-history law: after any sequence of inserts, the roots the
/// tree still knows are exactly the non-zero roots of the last
/// `ROOT_HISTORY_SIZE` states. Every recent root (if non-zero, as a hash
/// collision with zero is the one value the check refuses) is still
/// known, and anything known is one of those recent roots — anything
/// older has been overwritten.
pub proof fn lemma_root_history_window(
    trace: Seq<MerkleTreeWithHistory>,
    leaves: Seq<nat>,
    results: Seq<Option<u32>>,
    levels: u32,
)
    requires
        trace[0].is_fresh(levels),
        insert_steps_ok(trace, leaves, results),
        leaves.len() <= pow2(levels as nat),
        forall|k: int| 0 <= k <= leaves.len() ==> (#[trigger] trace[k]).wf(),
    ensures
        forall|j: int|
            0 <= j <= leaves.len() && leaves.len() - ROOT_HISTORY_SIZE < j && (
            #[trigger] trace[j]).spec_last_root() != 0 ==> trace[leaves.len() as int].spec_known_root(
                trace[j].spec_last_root(),
            ),
        forall|v: nat|
            #[trigger] trace[leaves.len() as int].spec_known_root(v) ==> exists|j: int|
                0 <= j <= leaves.len() && leaves.len() - ROOT_HISTORY_SIZE < j && (
                #[trigger] trace[j]).spec_last_root() == v,
{
    let h: int = ROOT_HISTORY_SIZE as int;
    let n: int = leaves.len() as int;
    lemma_insert_trace_ring(trace, leaves, results, levels, n);
    assert forall|j: int|
        0 <= j <= n && n - h < j && (#[trigger] trace[j]).spec_last_root() != 0 implies trace[n].spec_known_root(
        trace[j].spec_last_root(),
    ) by {
        assert(0 <= j % h < h);
        assert(trace[n].roots@[j % h]@ == trace[j].spec_last_root());
    }
    assert forall|v: nat| #[trigger] trace[n].spec_known_root(v) implies exists|j: int|
        0 <= j <= n && n - h < j && (#[trigger] trace[j]).spec_last_root() == v by {
        let i = choose|i: int| 0 <= i < h && (#[trigger] trace[n].roots@[i])@ == v;
        lemma_fundamental_div_mod(n, h);
        if i <= n % h {
            let j = n - n % h + i;
            assert(j % h == i) by {
                lemma_mod_multiples_vanish(n / h, i, h);
                lemma_small_mod(i as nat, h as nat);
            }
            assert(trace[n].roots@[j % h]@ == trace[j].spec_last_root());
            assert(trace[j].spec_last_root() == v);
        } else if n - n % h - h + i >= 0 {
            let j = n - n % h - h + i;
            assert(j % h == i) by {
                lemma_mod_multiples_vanish(n / h - 1, i, h);
                lemma_small_mod(i as nat, h as nat);
            }
            assert(n - h < j <= n);
            assert(trace[n].roots@[j % h]@ == trace[j].spec_last_root());
            assert(trace[j].spec_last_root() == v);
        } else {
            assert(n < h);
            assert(n % h == n) by {
                lemma_small_mod(n as nat, h as nat);
            }
            assert(n < i < h);
            assert(trace[n].roots@[i]@ == 0);
            assert(false);
        }
    }
}

/// The ring slot reached by stepping `k` places backward from `cri`,
/// wrapping at zero.
pub open spec fn ring_slot(cri: int, k: int) -> int {
    if cri >= k {
        cri - k
    } else {
        cri + ROOT_HISTORY_SIZE - k
    }
}

/// Computes `2^e` on machine integers.
fn pow2_u32(e: u32) -> (r: u32)
    requires
        e < 32,
    ensures
        r == pow2(e as nat),
{
    proof {
        lemma2_to64();
    }
    let mut r: u32 = 1;
    let mut j: u32 = 0;
    while j < e
        invariant
            j <= e,
            e < 32,
            r == pow2(j as nat),
        decreases e - j,
    {
        proof {
            lemma2_to64();
            lemma_pow2_unfold((j + 1) as nat);
            lemma_pow2_strictly_increases(j as nat + 1, 32);
        }
        r = r * 2;
        j = j + 1;
    }
    r
}

} // verus!
