//! Binary merkle tree over an ordered list of 32-byte leaves; on a level of
//! odd length the last node is paired with itself.

use vstd::prelude::*;
use crate::hash::{Hash32, hash_eq, sha256, sha256_of};

verus! {

/// The byte views of a list of digests.
pub open spec fn hashes_view(v: Seq<Hash32>) -> Seq<Seq<u8>> {
    v.map_values(|h: Hash32| h@)
}

/// Parent of the pair `(left, right)`.
pub open spec fn combine(left: Seq<u8>, right: Seq<u8>) -> Seq<u8> {
    sha256_of(left + right)
}

/// The level above `lv`: node `i` combines nodes `2i` and `2i + 1` of `lv`,
/// the last node standing for its own partner when `lv` has odd length.
pub open spec fn next_level(lv: Seq<Seq<u8>>) -> Seq<Seq<u8>> {
    Seq::new(
        ((lv.len() + 1) / 2) as nat,
        |i: int|
            combine(lv[2 * i], if 2 * i + 1 < lv.len() { lv[2 * i + 1] } else { lv[2 * i] }),
    )
}

/// Root of the tree whose bottom level is `lv`.
pub open spec fn root_of_level(lv: Seq<Seq<u8>>) -> Seq<u8>
    decreases lv.len(),
{
    if lv.len() <= 1 {
        lv[0]
    } else {
        root_of_level(next_level(lv))
    }
}

/// The merkle root of a leaf list; the empty list has the digest of no bytes as root.
pub open spec fn merkle_root_of(leaves: Seq<Seq<u8>>) -> Seq<u8> {
    if leaves.len() == 0 {
        sha256_of(Seq::empty())
    } else {
        root_of_level(leaves)
    }
}

/// One step of an inclusion proof: the sibling's digest and its side.
#[derive(Debug, Clone)]
pub struct ProofNode {
    pub hash: Hash32,
    pub is_left: bool,
}

/// Position of a leaf's ancestor on level `l`.
pub open spec fn path_index(index: nat, l: nat) -> nat
    decreases l,
{
    if l == 0 {
        index
    } else {
        path_index(index, (l - 1) as nat) / 2
    }
}

/// The proof step for position `idx` of level `lv`.
pub open spec fn sibling_step(lv: Seq<Seq<u8>>, idx: nat) -> (Seq<u8>, bool) {
    if idx % 2 == 1 {
        (lv[idx - 1], true)
    } else if idx + 1 < lv.len() {
        (lv[idx + 1 as int], false)
    } else {
        (lv[idx as int], false)
    }
}

/// Replaying the combines of `proof` from `leaf` upwards.
pub open spec fn replay(leaf: Seq<u8>, proof: Seq<ProofNode>) -> Seq<u8>
    decreases proof.len(),
{
    if proof.len() == 0 {
        leaf
    } else {
        let cur = replay(leaf, proof.drop_last());
        let node = proof.last();
        if node.is_left {
            combine(node.hash@, cur)
        } else {
            combine(cur, node.hash@)
        }
    }
}

/// A merkle tree stored level by level, leaves first.
#[derive(Debug, Clone)]
pub struct MerkleTree {
    levels: Vec<Vec<Hash32>>,
}

/// Digest of the concatenation of two nodes.
fn hash_pair(left: &Hash32, right: &Hash32) -> (r: Hash32)
    ensures
        r@ == combine(left@, right@),
{
    let mut data: Vec<u8> = Vec::with_capacity(64);
    let mut i: usize = 0;
    while i < 32
        invariant
            i <= 32,
            data@ == left@.subrange(0, i as int),
        decreases 32 - i,
    {
        data.push(left[i]);
        i += 1;
    }
    let mut j: usize = 0;
    while j < 32
        invariant
            j <= 32,
            data@ == left@ + right@.subrange(0, j as int),
        decreases 32 - j,
    {
        data.push(right[j]);
        j += 1;
    }
    assert(data@ =~= left@ + right@);
    sha256(data.as_slice())
}

/// Digest of a leaf's bytes.
fn hash_leaf(data: &[u8]) -> (r: Hash32)
    ensures
        r@ == sha256_of(data@),
{
    sha256(data)
}

impl MerkleTree {
    /// Level `l` of the tree, leaves at level 0.
    pub closed spec fn level(&self, l: int) -> Seq<Seq<u8>> {
        hashes_view(self.levels@[l]@)
    }

    /// Number of levels, the root's level included.
    pub closed spec fn height(&self) -> nat {
        self.levels@.len()
    }

    /// The bottom level of the tree.
    pub open spec fn leaf_level(&self) -> Seq<Seq<u8>> {
        self.level(0)
    }

    /// Each level is the one below it combined pairwise, and the top holds one node.
    pub open spec fn wf(&self) -> bool {
        &&& self.height() >= 1
        &&& self.level(0).len() >= 1
        &&& self.level(self.height() - 1).len() == 1
        &&& forall|l: int|
            0 <= l < self.height() - 1 ==> #[trigger] self.level(l + 1) == next_level(self.level(l))
                && self.level(l).len() > 1
    }

    proof fn lemma_root_of_upper(&self, l: int)
        requires
            self.wf(),
            0 <= l < self.height(),
        ensures
            root_of_level(self.level(l)) == root_of_level(self.leaf_level()),
        decreases l,
    {
        if l > 0 {
            let k = l - 1;
            assert(0 <= k < self.height() - 1);
            assert(self.level(k + 1) == next_level(self.level(k)));
            assert(self.level(k + 1) == next_level(self.level(k)) && self.level(k).len() > 1);
            assert(k + 1 == l);
            self.lemma_root_of_upper(k);
        }
    }

    /// Builds every level from the leaves up to the root.
    pub fn from_leaves(leaves: Vec<Hash32>) -> (r: MerkleTree)
        ensures
            r.wf(),
            leaves@.len() == 0 ==> r.leaf_level() == seq![sha256_of(Seq::empty())],
            leaves@.len() > 0 ==> r.leaf_level() == hashes_view(leaves@),
    {
        if leaves.len() == 0 {
            let empty = hash_leaf(&[]);
            let mut lv: Vec<Hash32> = Vec::new();
            lv.push(empty);
            let mut levels: Vec<Vec<Hash32>> = Vec::new();
            levels.push(lv);
            let t = MerkleTree { levels };
            assert(t.level(0) =~= seq![sha256_of(Seq::empty())]) by {
                assert(<[u8] as View>::view(&[]) =~= Seq::<u8>::empty());
            }
            return t;
        }
        let ghost leaves_view = hashes_view(leaves@);
        let mut levels: Vec<Vec<Hash32>> = Vec::new();
        let mut curr: Vec<Hash32> = leaves;
        while curr.len() > 1
            invariant
                curr@.len() >= 1,
                levels@.len() == 0 ==> hashes_view(curr@) == leaves_view,
                levels@.len() > 0 ==> hashes_view(levels@[0]@) == leaves_view,
                levels@.len() > 0 ==> hashes_view(curr@) == next_level(
                    hashes_view(levels@[levels@.len() - 1]@),
                ),
                forall|l: int|
                    0 <= l < levels@.len() - 1 ==> #[trigger] hashes_view(levels@[l + 1]@)
                        == next_level(hashes_view(levels@[l]@)),
                forall|l: int| 0 <= l < levels@.len() ==> #[trigger] levels@[l]@.len() > 1,
            decreases curr@.len(),
        {
            let n = curr.len();
            let mut next: Vec<Hash32> = Vec::with_capacity(n / 2 + 1);
            let mut i: usize = 0;
            while i < n
                invariant
                    n == curr@.len(),
                    n > 1,
                    i < n ==> i % 2 == 0,
                    i <= n,
                    next@.len() == (i + 1) / 2,
                    forall|k: int|
                        0 <= k < next@.len() ==> #[trigger] next@[k]@ == next_level(
                            hashes_view(curr@),
                        )[k],
                decreases n - i,
            {
                let left = curr[i];
                let right = if i + 1 < n {
                    curr[i + 1]
                } else {
                    curr[i]
                };
                let parent = hash_pair(&left, &right);
                next.push(parent);
                i = if n - i >= 2 {
                    i + 2
                } else {
                    n
                };
            }
            assert(hashes_view(next@) =~= next_level(hashes_view(curr@)));
            let ghost old_levels = levels@;
            levels.push(curr);
            curr = next;
            assert forall|l: int| 0 <= l < levels@.len() - 1 implies #[trigger] hashes_view(
                levels@[l + 1]@,
            ) == next_level(hashes_view(levels@[l]@)) by {
                if l < old_levels.len() - 1 {
                    assert(levels@[l + 1] == old_levels[l + 1]);
                }
            }
        }
        levels.push(curr);
        let t = MerkleTree { levels };
        assert forall|l: int| 0 <= l < t.height() - 1 implies #[trigger] t.level(l + 1)
            == next_level(t.level(l)) && t.level(l).len() > 1 by {
            assert(t.levels@[l] == levels@[l]);
        }
        t
    }

    /// The top node.
    pub fn root(&self) -> (r: Hash32)
        requires
            self.wf(),
        ensures
            r@ == root_of_level(self.leaf_level()),
    {
        let last = self.levels.len() - 1;
        proof {
            self.lemma_root_of_upper(last as int);
        }
        let top = &self.levels[last];
        let r = top[0];
        assert(self.level(last as int)[0] == r@);
        r
    }

    /// The inclusion proof of leaf `index`: one sibling step per level below
    /// the root, leaf first; `None` when there is no such leaf.
    pub fn get_proof(&self, index: usize) -> (r: Option<Vec<ProofNode>>)
        requires
            self.wf(),
        ensures
            r is None <==> index >= self.leaf_level().len(),
            r matches Some(p) ==> self.is_proof_of(index as nat, p@),
    {
        if self.levels.len() == 0 {
            return None;
        }
        if index >= self.levels[0].len() {
            return None;
        }
        let mut proof: Vec<ProofNode> = Vec::new();
        let mut idx: usize = index;
        let top = self.levels.len() - 1;
        let mut level: usize = 0;
        while level < top
            invariant
                self.wf(),
                top == self.height() - 1,
                level <= top,
                idx == path_index(index as nat, level as nat),
                idx < self.level(level as int).len(),
                proof@.len() == level,
                forall|l: int|
                    0 <= l < level ==> #[trigger] proof@[l].hash@ == sibling_step(
                        self.level(l),
                        path_index(index as nat, l as nat),
                    ).0 && proof@[l].is_left == sibling_step(
                        self.level(l),
                        path_index(index as nat, l as nat),
                    ).1,
            decreases top - level,
        {
            let nodes = &self.levels[level];
            assert(self.level(level as int).len() == nodes@.len());
            let is_right = idx % 2 == 1;
            let sibling_index = if is_right {
                idx - 1
            } else {
                idx + 1
            };
            if sibling_index < nodes.len() {
                proof.push(ProofNode { hash: nodes[sibling_index], is_left: sibling_index < idx });
            } else {
                proof.push(ProofNode { hash: nodes[idx], is_left: false });
            }
            assert(self.level(level as int + 1) == next_level(self.level(level as int)));
            idx = idx / 2;
            level += 1;
        }
        Some(proof)
    }

    /// `proof` holds, level by level, the sibling steps on the path of leaf `index`.
    pub open spec fn is_proof_of(&self, index: nat, proof: Seq<ProofNode>) -> bool {
        &&& proof.len() == self.height() - 1
        &&& forall|l: int|
            0 <= l < proof.len() ==> (#[trigger] proof[l]).hash@ == sibling_step(
                self.level(l),
                path_index(index, l as nat),
            ).0 && proof[l].is_left == sibling_step(self.level(l), path_index(index, l as nat)).1
    }

    /// Replays the combines of `proof` from `leaf_hash` and compares with `expected_root`.
    pub fn verify_proof(leaf_hash: &Hash32, proof: &Vec<ProofNode>, expected_root: &Hash32) -> (r:
        bool)
        ensures
            r == (replay(leaf_hash@, proof@) == expected_root@),
    {
        let mut cur: Hash32 = *leaf_hash;
        let mut i: usize = 0;
        while i < proof.len()
            invariant
                i <= proof@.len(),
                cur@ == replay(leaf_hash@, proof@.subrange(0, i as int)),
            decreases proof@.len() - i,
        {
            let node = &proof[i];
            assert(proof@.subrange(0, i as int + 1).drop_last() =~= proof@.subrange(0, i as int));
            if node.is_left {
                cur = hash_pair(&node.hash, &cur);
            } else {
                cur = hash_pair(&cur, &node.hash);
            }
            i += 1;
        }
        assert(proof@.subrange(0, proof@.len() as int) =~= proof@);
        hash_eq(&cur, expected_root)
    }

    proof fn lemma_replay_prefix(&self, index: nat, proof: Seq<ProofNode>, l: nat)
        requires
            self.wf(),
            index < self.leaf_level().len(),
            self.is_proof_of(index, proof),
            l <= proof.len(),
        ensures
            path_index(index, l) < self.level(l as int).len(),
            replay(self.leaf_level()[index as int], proof.subrange(0, l as int)) == self.level(
                l as int,
            )[path_index(index, l) as int],
        decreases l,
    {
        if l > 0 {
            let k = (l - 1) as nat;
            self.lemma_replay_prefix(index, proof, k);
            let lv = self.level(k as int);
            let idx = path_index(index, k);
            assert(0 <= k < self.height() - 1);
            assert(self.level(k as int + 1) == next_level(lv));
            assert(proof.subrange(0, l as int).drop_last() =~= proof.subrange(0, k as int));
            assert(proof.subrange(0, l as int).last() == proof[k as int]);
            assert(path_index(index, l) == idx / 2);
            let nl = next_level(lv);
            let j = (idx / 2) as int;
            assert(nl[j] == combine(lv[2 * j], if 2 * j + 1 < lv.len() { lv[2 * j + 1] } else { lv[2 * j] }));
        }
    }

    /// The proof that `get_proof` gives for a leaf replays from that leaf to the root.
    pub proof fn lemma_proof_replays_to_root(&self, index: nat, proof: Seq<ProofNode>)
        requires
            self.wf(),
            index < self.leaf_level().len(),
            self.is_proof_of(index, proof),
        ensures
            replay(self.leaf_level()[index as int], proof) == root_of_level(self.leaf_level()),
    {
        self.lemma_replay_prefix(index, proof, proof.len());
        assert(proof.subrange(0, proof.len() as int) =~= proof);
        self.lemma_root_of_upper(self.height() - 1);
    }
}

} // verus!
