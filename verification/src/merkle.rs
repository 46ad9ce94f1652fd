//! The Merkle tree of a batch: Keccak-256 over its sectors, pairs hashed level
//! by level up to the root, and proofs that one sector belongs under a root.

use crate::codec::push_hash;
use crate::error::Error;
use crate::shard::is_power_of_two;
use crate::types::{DataRoot, FlowProof};
use tiny_keccak::{Hasher, Keccak};
use vstd::prelude::*;

verus! {

/// The Keccak-256 digest of a byte string.
pub uninterp spec fn keccak256(data: Seq<u8>) -> Seq<u8>;

/// `Keccak::v256` of `tiny_keccak`, fed `data` in one `update` and read out
/// with `finalize`: the Keccak-256 digest of `data`.
#[verifier::external_body]
pub(crate) fn keccak(data: &[u8]) -> (h: DataRoot)
    ensures
        h@ == keccak256(data@),
{
    let mut hasher = Keccak::v256();
    hasher.update(data);
    let mut out = [0u8; 32];
    hasher.finalize(&mut out);
    DataRoot { bytes: out }
}

/// The hash of an inner node: the digest of its children's hashes, left then
/// right.
pub open spec fn parent_hash(left: Seq<u8>, right: Seq<u8>) -> Seq<u8> {
    keccak256(left + right)
}

/// The layer above `nodes`: each pair of neighbours hashed into one node.
pub open spec fn next_layer(nodes: Seq<Seq<u8>>) -> Seq<Seq<u8>> {
    Seq::new(nodes.len() / 2, |i: int| parent_hash(nodes[2 * i], nodes[2 * i + 1]))
}

/// The root over `nodes`: the one node that is left when layers are taken
/// until a single node remains.
pub open spec fn merkle_root(nodes: Seq<Seq<u8>>) -> Seq<u8>
    decreases nodes.len(),
{
    if nodes.len() == 0 {
        Seq::new(32, |i: int| 0u8)
    } else if nodes.len() == 1 {
        nodes[0]
    } else {
        merkle_root(next_layer(nodes))
    }
}

/// The hashes of a list as byte strings.
pub open spec fn hashes_view(v: Seq<DataRoot>) -> Seq<Seq<u8>> {
    Seq::new(v.len(), |i: int| v[i]@)
}

/// One step up the tree: the parent of `node` and its `sibling`, where
/// `is_left` says that `node` is the left child.
pub open spec fn proof_step(node: Seq<u8>, sibling: Seq<u8>, is_left: bool) -> Seq<u8> {
    if is_left {
        parent_hash(node, sibling)
    } else {
        parent_hash(sibling, node)
    }
}

/// The node reached from `node` by the steps that `siblings` and `path` give,
/// lowest level first.
pub open spec fn proof_fold(node: Seq<u8>, siblings: Seq<Seq<u8>>, path: Seq<bool>) -> Seq<u8>
    decreases siblings.len(),
{
    if siblings.len() == 0 || path.len() == 0 {
        node
    } else {
        proof_step(
            proof_fold(node, siblings.drop_last(), path.drop_last()),
            siblings.last(),
            path.last(),
        )
    }
}

/// Whether a proof holds together: it has the leaf, one sibling per step and
/// the root, and the steps lead from the leaf to the root.
pub open spec fn proof_valid(lemma: Seq<Seq<u8>>, path: Seq<bool>) -> bool {
    lemma.len() == path.len() + 2 && proof_fold(
        lemma[0],
        lemma.subrange(1, lemma.len() - 1),
        path,
    ) == lemma[lemma.len() - 1]
}

/// The hash of an inner node with the children `left` and `right`.
pub fn hash_pair(left: &DataRoot, right: &DataRoot) -> (h: DataRoot)
    ensures
        h@ == parent_hash(left@, right@),
{
    let mut buffer: Vec<u8> = Vec::with_capacity(64);
    push_hash(&mut buffer, left);
    push_hash(&mut buffer, right);
    assert(buffer@ =~= left@ + right@);
    keccak(buffer.as_slice())
}

/// A Merkle tree over a power of two of leaves, with every layer kept.
pub struct MerkleTree {
    layers: Vec<Vec<DataRoot>>,
}

impl MerkleTree {
    /// Layer `k` of the tree, the leaves being layer 0.
    pub closed spec fn layer(&self, k: int) -> Seq<Seq<u8>> {
        hashes_view(self.layers@[k]@)
    }

    /// The number of layers, the leaves and the root included.
    pub closed spec fn height(&self) -> int {
        self.layers@.len() as int
    }

    /// The leaves of the tree.
    pub open spec fn leaves(&self) -> Seq<Seq<u8>> {
        self.layer(0)
    }

    /// The layers go from the leaves to a single root, each the layer above
    /// the one before it and half its size.
    pub closed spec fn wf(&self) -> bool {
        &&& self.layers@.len() >= 1
        &&& self.layers@[self.layers@.len() - 1]@.len() == 1
        &&& forall|k: int|
            0 <= k < self.layers@.len() - 1 ==> (#[trigger] self.layers@[k])@.len() == 2
                * self.layers@[k + 1]@.len() && self.layer(k + 1) == next_layer(self.layer(k))
    }

    /// The root of the tree as a byte string.
    pub closed spec fn spec_root(&self) -> Seq<u8> {
        self.layers@[self.layers@.len() - 1]@[0]@
    }

    /// The root that the layers end in is the root over the leaves.
    pub proof fn lemma_root(&self)
        requires
            self.wf(),
        ensures
            self.spec_root() == merkle_root(self.leaves()),
            self.leaves().len() >= 1,
    {
        self.lemma_root_from(0);
    }

    proof fn lemma_root_from(&self, k: int)
        requires
            self.wf(),
            0 <= k < self.layers@.len(),
        ensures
            self.spec_root() == merkle_root(self.layer(k)),
            self.layer(k).len() >= 1,
        decreases self.layers@.len() - k,
    {
        if k < self.layers@.len() - 1 {
            self.lemma_root_from(k + 1);
            assert(self.layers@[k]@.len() == 2 * self.layers@[k + 1]@.len());
        }
    }

    /// One step of a proof: from the node at place `at` of layer `k` and its
    /// neighbour to the node above them.
    proof fn lemma_step(&self, k: int, at: int, leaf: Seq<u8>, siblings: Seq<Seq<u8>>, path: Seq<bool>)
        requires
            self.wf(),
            0 <= k < self.layers@.len() - 1,
            0 <= at < self.layers@[k]@.len(),
            siblings.len() == path.len(),
            proof_fold(leaf, siblings, path) == self.layers@[k]@[at]@,
        ensures
            at / 2 < self.layers@[k + 1]@.len(),
            proof_fold(
                leaf,
                siblings.push(self.layers@[k]@[if at % 2 == 0 { at + 1 } else { at - 1 }]@),
                path.push(at % 2 == 0),
            ) == self.layers@[k + 1]@[at / 2]@,
    {
        let other = if at % 2 == 0 { at + 1 } else { at - 1 };
        let sibling = self.layers@[k]@[other]@;
        let more_siblings = siblings.push(sibling);
        let more_path = path.push(at % 2 == 0);
        assert(self.layers@[k]@.len() == 2 * self.layers@[k + 1]@.len());
        assert(more_siblings.drop_last() =~= siblings);
        assert(more_path.drop_last() =~= path);
        let below = self.layer(k);
        let above = self.layer(k + 1);
        assert(above == next_layer(below));
        let m = at / 2;
        assert(above[m] == parent_hash(below[2 * m], below[2 * m + 1]));
        assert(below[at] == self.layers@[k]@[at]@);
        assert(below[other] == sibling);
        assert(above[m] == self.layers@[k + 1]@[m]@);
    }

    /// Builds the tree over `leaves`.
    pub fn build(leaves: Vec<DataRoot>) -> (tree: MerkleTree)
        requires
            is_power_of_two(leaves@.len()),
        ensures
            tree.wf(),
            tree.leaves() == hashes_view(leaves@),
    {
        let ghost leaf_view = hashes_view(leaves@);
        let mut layers: Vec<Vec<DataRoot>> = Vec::new();
        layers.push(leaves);
        while layers[layers.len() - 1].len() > 1
            invariant
                layers@.len() >= 1,
                hashes_view(layers@[0]@) == leaf_view,
                is_power_of_two(layers@[layers@.len() - 1]@.len()),
                forall|k: int|
                    0 <= k < layers@.len() - 1 ==> (#[trigger] layers@[k])@.len() == 2 * layers@[k
                        + 1]@.len() && hashes_view(layers@[k + 1]@) == next_layer(
                        hashes_view(layers@[k]@),
                    ),
            decreases layers@[layers@.len() - 1]@.len(),
        {
            let top: usize = layers.len() - 1;
            let n: usize = layers[top].len();
            let half: usize = n / 2;
            let mut next: Vec<DataRoot> = Vec::with_capacity(half);
            let mut i: usize = 0;
            while i < half
                invariant
                    top == layers@.len() - 1,
                    n == layers@[top as int]@.len(),
                    half == n / 2,
                    n % 2 == 0,
                    i <= half,
                    next@.len() == i,
                    forall|j: int|
                        0 <= j < i ==> (#[trigger] next@[j])@ == parent_hash(
                            layers@[top as int]@[2 * j]@,
                            layers@[top as int]@[2 * j + 1]@,
                        ),
                decreases half - i,
            {
                let h = hash_pair(&layers[top][2 * i], &layers[top][2 * i + 1]);
                next.push(h);
                i += 1;
            }
            proof {
                assert(hashes_view(next@) =~= next_layer(hashes_view(layers@[top as int]@)));
            }
            let ghost before = layers@;
            layers.push(next);
            proof {
                assert forall|k: int| 0 <= k < layers@.len() - 1 implies (#[trigger] layers@[k])@.len()
                    == 2 * layers@[k + 1]@.len() && hashes_view(layers@[k + 1]@) == next_layer(
                    hashes_view(layers@[k]@),
                ) by {
                    if k < top {
                        assert(before[k]@.len() == 2 * before[k + 1]@.len());
                    }
                }
            }
        }
        MerkleTree { layers }
    }

    /// The root of the tree.
    pub fn root(&self) -> (r: DataRoot)
        requires
            self.wf(),
        ensures
            r@ == merkle_root(self.leaves()),
    {
        proof {
            self.lemma_root();
        }
        self.layers[self.layers.len() - 1][0]
    }

    /// The number of leaves.
    pub fn num_leaves(&self) -> (n: usize)
        requires
            self.wf(),
        ensures
            n == self.leaves().len(),
    {
        self.layers[0].len()
    }

    /// The proof that leaf `index` belongs under the root; there is none for
    /// an index past the leaves.
    pub fn gen_proof(&self, index: usize) -> (r: Result<FlowProof, Error>)
        requires
            self.wf(),
        ensures
            index < self.leaves().len() ==> r is Ok && ({
                let proof = r.unwrap();
                &&& proof_valid(hashes_view(proof.lemma@), proof.path@)
                &&& proof.lemma@[0]@ == self.leaves()[index as int]
                &&& proof.lemma@[proof.lemma@.len() - 1]@ == merkle_root(self.leaves())
                &&& proof.path@.len() == self.height() - 1
            }),
            index >= self.leaves().len() ==> r is Err && r.unwrap_err() == Error::InvalidArgument,
    {
        if index >= self.layers[0].len() {
            return Err(Error::InvalidArgument);
        }
        proof {
            self.lemma_root();
        }
        let leaf = self.layers[0][index];
        let mut lemma: Vec<DataRoot> = Vec::new();
        let mut path: Vec<bool> = Vec::new();
        lemma.push(leaf);
        let mut at: usize = index;
        let mut k: usize = 0;
        let ghost mut siblings: Seq<Seq<u8>> = Seq::empty();
        while k < self.layers.len() - 1
            invariant
                self.wf(),
                k < self.layers@.len(),
                at < self.layers@[k as int]@.len(),
                lemma@.len() == k + 1,
                path@.len() == k,
                siblings.len() == k,
                lemma@[0] == leaf,
                forall|j: int| 0 <= j < k ==> (#[trigger] lemma@[j + 1])@ == siblings[j],
                proof_fold(leaf@, siblings, path@) == self.layers@[k as int]@[at as int]@,
            decreases self.layers@.len() - k,
        {
            let is_left: bool = at % 2 == 0;
            let other: usize = if is_left {
                at + 1
            } else {
                at - 1
            };
            assert(self.layers@[k as int]@.len() == 2 * self.layers@[k + 1]@.len());
            let sibling = self.layers[k][other];
            let ghost old_siblings = siblings;
            let ghost old_path = path@;
            let ghost old_lemma = lemma@;
            lemma.push(sibling);
            path.push(is_left);
            proof {
                siblings = siblings.push(sibling@);
                self.lemma_step(k as int, at as int, leaf@, old_siblings, old_path);
                assert forall|j: int| 0 <= j < k + 1 implies (#[trigger] lemma@[j + 1])@
                    == siblings[j] by {
                    if j < k {
                        assert(old_lemma[j + 1]@ == old_siblings[j]);
                    }
                }
            }
            at = at / 2;
            k += 1;
        }
        let root = self.layers[k][0];
        let ghost inner = lemma@;
        lemma.push(root);
        proof {
            let all = hashes_view(lemma@);
            assert(all.subrange(1, all.len() - 1) =~= siblings) by {
                assert forall|j: int| 0 <= j < k implies all.subrange(1, all.len() - 1)[j]
                    == siblings[j] by {
                    assert(inner[j + 1]@ == siblings[j]);
                }
            }
            assert(all[0] == leaf@);
            assert(all[all.len() - 1] == root@);
        }
        Ok(FlowProof { lemma, path })
    }
}

impl FlowProof {
    /// Whether the proof holds together: the steps of `path` lead from the
    /// leaf through the siblings to the root.
    pub fn validate(&self) -> (r: bool)
        ensures
            r == proof_valid(hashes_view(self.lemma@), self.path@),
    {
        let m: usize = self.lemma.len();
        let n: usize = self.path.len();
        if m < 2 || m - 2 != n {
            return false;
        }
        let ghost all = hashes_view(self.lemma@);
        let ghost siblings = all.subrange(1, all.len() - 1);
        let mut node: DataRoot = self.lemma[0];
        let mut k: usize = 0;
        assert(siblings.take(0) =~= Seq::<Seq<u8>>::empty());
        while k < n
            invariant
                n == self.path@.len(),
                self.lemma@.len() == n + 2,
                all == hashes_view(self.lemma@),
                siblings == all.subrange(1, all.len() - 1),
                k <= n,
                node@ == proof_fold(all[0], siblings.take(k as int), self.path@.take(k as int)),
            decreases n - k,
        {
            let sibling = self.lemma[k + 1];
            let is_left = self.path[k];
            proof {
                let more_siblings = siblings.take(k + 1);
                let more_path = self.path@.take(k + 1);
                assert(more_siblings.drop_last() =~= siblings.take(k as int));
                assert(more_path.drop_last() =~= self.path@.take(k as int));
                assert(more_siblings.last() == sibling@);
                assert(more_path.last() == is_left);
            }
            node = if is_left {
                hash_pair(&node, &sibling)
            } else {
                hash_pair(&sibling, &node)
            };
            k += 1;
        }
        proof {
            assert(siblings.take(n as int) =~= siblings);
            assert(self.path@.take(n as int) =~= self.path@);
        }
        node.same(&self.lemma[n + 1])
    }
}

} // verus!
