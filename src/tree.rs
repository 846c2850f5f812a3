//! The sparse Merkle tree and its proofs, held by the `sparse-merkle-tree`
//! crate and described here by the map of leaves it commits to.
use crate::blake2b::Blake2bHasher;
use sparse_merkle_tree::default_store::DefaultStore;
use sparse_merkle_tree::error::Error;
use sparse_merkle_tree::{CompiledMerkleProof, MerkleProof, SparseMerkleTree, H256};
use vstd::prelude::*;

verus! {

/// A 256-bit key, value or digest.
pub type Hash256 = [u8; 32];

/// The tree as this library builds it: BLAKE2b nodes, 32-byte values, in memory.
pub type Smt = SparseMerkleTree<Blake2bHasher, H256, DefaultStore<H256>>;

/// sparse_merkle_tree::SparseMerkleTree, described by `tree_leaves`.
#[verifier::external_type_specification]
#[verifier::external_body]
#[verifier::reject_recursive_types(H)]
#[verifier::reject_recursive_types(V)]
#[verifier::reject_recursive_types(S)]
pub struct ExSparseMerkleTree<H, V, S>(SparseMerkleTree<H, V, S>);

/// sparse_merkle_tree::default_store::DefaultStore, the in-memory node store.
#[verifier::external_type_specification]
#[verifier::external_body]
#[verifier::reject_recursive_types(V)]
pub struct ExDefaultStore<V>(DefaultStore<V>);

/// sparse_merkle_tree::MerkleProof, a proof before compilation, carried without looking inside.
#[verifier::external_type_specification]
#[verifier::external_body]
pub struct ExMerkleProof(MerkleProof);

/// sparse_merkle_tree::error::Error, mapped to this library's errors.
#[verifier::external_type_specification]
#[verifier::external_body]
pub struct ExError(Error);

/// The all-zero digest: the value of an absent key and the root of the empty tree.
pub open spec fn zero_hash() -> Seq<u8> {
    Seq::new(32, |i: int| 0u8)
}

/// The leaf map after writing `value` under `key`: the zero value removes the key.
pub open spec fn write_leaf(leaves: Map<Seq<u8>, Seq<u8>>, key: Seq<u8>, value: Seq<u8>) -> Map<
    Seq<u8>,
    Seq<u8>,
> {
    if value == zero_hash() {
        leaves.remove(key)
    } else {
        leaves.insert(key, value)
    }
}

/// The leaf map of the empty tree.
pub open spec fn no_leaves() -> Map<Seq<u8>, Seq<u8>> {
    Map::empty()
}

/// The pairs as byte sequences.
pub open spec fn pairs_view(pairs: Seq<(Hash256, Hash256)>) -> Seq<(Seq<u8>, Seq<u8>)> {
    pairs.map_values(|p: (Hash256, Hash256)| (p.0@, p.1@))
}

/// The leaf map that writing `pairs` in order into an empty tree leaves behind:
/// a later pair for a key overrides an earlier one.
pub open spec fn leaves_of(pairs: Seq<(Seq<u8>, Seq<u8>)>) -> Map<Seq<u8>, Seq<u8>>
    decreases pairs.len(),
{
    if pairs.len() == 0 {
        no_leaves()
    } else {
        write_leaf(leaves_of(pairs.drop_last()), pairs.last().0, pairs.last().1)
    }
}

/// No two entries share a key.
pub open spec fn distinct_keys(pairs: Seq<(Seq<u8>, Seq<u8>)>) -> bool {
    forall|i: int, j: int| 0 <= i < j < pairs.len() ==> pairs[i].0 != pairs[j].0
}

/// With distinct keys, the leaf map holds a key exactly when some pair gives
/// it a non-zero value, and then holds that value.
pub proof fn lemma_leaves_of_distinct(pairs: Seq<(Seq<u8>, Seq<u8>)>, k: Seq<u8>)
    requires
        distinct_keys(pairs),
    ensures
        leaves_of(pairs).contains_key(k) <==> exists|i: int|
            0 <= i < pairs.len() && pairs[i].0 == k && pairs[i].1 != zero_hash(),
        forall|i: int|
            0 <= i < pairs.len() && pairs[i].0 == k && pairs[i].1 != zero_hash()
                ==> leaves_of(pairs)[k] == pairs[i].1,
    decreases pairs.len(),
{
    if pairs.len() > 0 {
        let init = pairs.drop_last();
        let n = pairs.len() - 1;
        assert(distinct_keys(init)) by {
            assert forall|i: int, j: int| 0 <= i < j < init.len() implies init[i].0 != init[j].0 by {
                assert(init[i] == pairs[i] && init[j] == pairs[j]);
            }
        }
        lemma_leaves_of_distinct(init, k);
        if k == pairs[n].0 {
            assert forall|i: int| 0 <= i < n implies pairs[i].0 != k by {}
            assert forall|i: int| 0 <= i < init.len() implies init[i].0 != k by {
                assert(init[i] == pairs[i]);
            }
        } else {
            if exists|i: int| 0 <= i < pairs.len() && pairs[i].0 == k && pairs[i].1 != zero_hash() {
                let i = choose|i: int|
                    0 <= i < pairs.len() && pairs[i].0 == k && pairs[i].1 != zero_hash();
                assert(init[i] == pairs[i]);
            }
            assert forall|i: int|
                0 <= i < pairs.len() && pairs[i].0 == k && pairs[i].1 != zero_hash() implies leaves_of(
                pairs)[k] == pairs[i].1 by {
                assert(init[i] == pairs[i]);
            }
        }
    }
}

/// Writing the same set of pairs, no two with one key, in any order gives
/// the same leaves and so the same root.
pub proof fn lemma_root_ignores_order(a: Seq<(Seq<u8>, Seq<u8>)>, b: Seq<(Seq<u8>, Seq<u8>)>)
    requires
        distinct_keys(a),
        distinct_keys(b),
        a.to_set() == b.to_set(),
    ensures
        leaves_of(a) == leaves_of(b),
        root_of(leaves_of(a)) == root_of(leaves_of(b)),
{
    assert forall|k: Seq<u8>| #[trigger] leaves_of(a).contains_key(k) == leaves_of(b).contains_key(k)
        && (leaves_of(a).contains_key(k) ==> leaves_of(a)[k] == leaves_of(b)[k]) by {
        lemma_leaves_of_distinct(a, k);
        lemma_leaves_of_distinct(b, k);
        if leaves_of(a).contains_key(k) {
            let i = choose|i: int| 0 <= i < a.len() && a[i].0 == k && a[i].1 != zero_hash();
            assert(a.to_set().contains(a[i]));
            assert(b.contains(a[i]));
            let j = choose|j: int| 0 <= j < b.len() && b[j] == a[i];
            assert(b[j].0 == k && b[j].1 != zero_hash());
        }
        if leaves_of(b).contains_key(k) {
            let j = choose|j: int| 0 <= j < b.len() && b[j].0 == k && b[j].1 != zero_hash();
            assert(b.to_set().contains(b[j]));
            assert(a.contains(b[j]));
            let i = choose|i: int| 0 <= i < a.len() && a[i] == b[j];
            assert(a[i].0 == k && a[i].1 != zero_hash());
        }
    }
    assert(leaves_of(a) =~= leaves_of(b));
}

/// What a tree holds: each present key with its non-zero value.
pub uninterp spec fn tree_leaves(t: Smt) -> Map<Seq<u8>, Seq<u8>>;

/// The root digest of the tree that holds exactly `leaves`.
pub uninterp spec fn root_of(leaves: Map<Seq<u8>, Seq<u8>>) -> Seq<u8>;

/// Whether a compiled proof, checked with `Blake2bHasher`, recomputes `root`
/// from the claimed `(key, value)` leaves.
pub uninterp spec fn proof_accepts(
    proof: Seq<u8>,
    root: Seq<u8>,
    leaves: Seq<(Seq<u8>, Seq<u8>)>,
) -> bool;

/// Whether `p` is the proof that the tree holding `leaves` gives for `keys`.
pub uninterp spec fn proof_made_for(p: MerkleProof, leaves: Map<Seq<u8>, Seq<u8>>, keys: Set<Seq<u8>>) -> bool;

/// The compiled proof, as bytes, for `keys` in the tree holding `leaves`.
pub uninterp spec fn compiled_proof(leaves: Map<Seq<u8>, Seq<u8>>, keys: Set<Seq<u8>>) -> Seq<u8>;

/// A tree's leaves: each present key with its non-zero value.
pub type Leaves = Map<Seq<u8>, Seq<u8>>;

/// The most leaves one proof check may claim.
pub const MAX_CLAIMS: usize = 257;

/// The keys as a set of byte sequences.
pub open spec fn key_set(keys: Seq<Hash256>) -> Set<Seq<u8>> {
    keys.map_values(|k: Hash256| k@).to_set()
}

/// The keys of claimed pairs, as a set.
pub open spec fn claimed_keys(pairs: Seq<(Seq<u8>, Seq<u8>)>) -> Set<Seq<u8>> {
    pairs.map_values(|p: (Seq<u8>, Seq<u8>)| p.0).to_set()
}

/// Every claim matches the leaves: a present key with its value, an absent
/// key with the zero value.
pub open spec fn agrees(pairs: Seq<(Seq<u8>, Seq<u8>)>, leaves: Map<Seq<u8>, Seq<u8>>) -> bool {
    forall|i: int|
        0 <= i < pairs.len() ==> if leaves.contains_key(#[trigger] pairs[i].0) {
            leaves[pairs[i].0] == pairs[i].1
        } else {
            pairs[i].1 == zero_hash()
        }
}

/// `proof` is the compiled proof for the claimed keys, no two alike, in the
/// tree holding `leaves`.
pub open spec fn compiled_for(proof: Seq<u8>, pairs: Seq<(Seq<u8>, Seq<u8>)>, leaves: Leaves) -> bool {
    distinct_keys(pairs) && proof == compiled_proof(leaves, claimed_keys(pairs))
}

/// `proof` and `root` are the compiled proof for the claimed keys and the root
/// of a tree holding `leaves`, and the claims, no two with one key, agree
/// with those leaves.
pub open spec fn fits_tree(proof: Seq<u8>, root: Seq<u8>, pairs: Seq<(Seq<u8>, Seq<u8>)>, leaves: Leaves) -> bool {
    pairs.len() > 0 && distinct_keys(pairs) && agrees(pairs, leaves) && proof == compiled_proof(
        leaves,
        claimed_keys(pairs),
    ) && root == root_of(leaves)
}

/// Relies on SparseMerkleTree::default: an empty store and the zero root.
#[verifier::external_body]
pub(crate) fn empty_tree() -> (r: Smt)
    ensures
        tree_leaves(r) == no_leaves(),
        root_of(tree_leaves(r)) == zero_hash(),
{
    Smt::default()
}

/// Relies on SparseMerkleTree::update: stores a non-zero value under the key,
/// removes the key on the zero value, and recomputes the root from the leaves.
/// The in-memory store it writes to never reports an error.
#[verifier::external_body]
pub(crate) fn tree_update(t: &mut Smt, key: &Hash256, value: &Hash256)
    ensures
        tree_leaves(*final(t)) == write_leaf(tree_leaves(*old(t)), key@, value@),
{
    let _new_root = t.update(H256::from(*key), H256::from(*value));
}

/// Relies on SparseMerkleTree::root: the root digest, which depends on the
/// stored leaves alone.
#[verifier::external_body]
pub(crate) fn tree_root(t: &Smt) -> (r: Hash256)
    ensures
        r@ == root_of(tree_leaves(*t)),
{
    (*t.root()).into()
}

/// Relies on SparseMerkleTree::merkle_proof: fails on an empty key list and,
/// over the in-memory store, on nothing else; the proof is the one for the
/// tree's leaves and the set of keys (they are sorted first).
#[verifier::external_body]
pub(crate) fn tree_proof(t: &Smt, keys: &Vec<Hash256>) -> (r: Result<MerkleProof, Error>)
    requires
        forall|i: int, j: int| 0 <= i < j < keys@.len() ==> keys@[i]@ != keys@[j]@,
    ensures
        r is Ok <==> keys@.len() > 0,
        r matches Ok(p) ==> proof_made_for(p, tree_leaves(*t), key_set(keys@)),
{
    t.merkle_proof(keys.iter().map(|k| H256::from(*k)).collect())
}

/// Relies on MerkleProof::compile: fails on an empty key list; given the keys
/// a proof was made for, compiles it into the bytes that depend on the
/// leaves and the key set alone.
#[verifier::external_body]
pub(crate) fn proof_compile(p: MerkleProof, keys: &Vec<Hash256>) -> (r: Result<Vec<u8>, Error>)
    requires
        forall|i: int, j: int| 0 <= i < j < keys@.len() ==> keys@[i]@ != keys@[j]@,
    ensures
        keys@.len() == 0 ==> r is Err,
        forall|l: Leaves|
            #![trigger proof_made_for(p, l, key_set(keys@))]
            keys@.len() > 0 && proof_made_for(p, l, key_set(keys@)) ==> (r is Ok && r->Ok_0@
                == compiled_proof(l, key_set(keys@))),
{
    p.compile(keys.iter().map(|k| H256::from(*k)).collect()).map(|c| c.0)
}

/// Relies on CompiledMerkleProof::verify with `Blake2bHasher`: `Ok(true)` when
/// the root recomputed from the proof and the leaves equals `root`; a proof
/// compiled for the claimed keys from a tree whose leaves the claims agree
/// with recomputes that tree's root. Each claimed leaf takes one stack slot,
/// and the stack is checked against 257 slots in debug builds; on a proof
/// compiled for the claimed keys it holds at most one entry per fork height.
#[verifier::external_body]
pub(crate) fn proof_verify(proof: &Vec<u8>, root: &Hash256, leaves: &Vec<(Hash256, Hash256)>) -> (r: Result<bool, Error>)
    requires
        leaves@.len() <= MAX_CLAIMS || exists|l: Leaves| #[trigger]
            compiled_for(proof@, pairs_view(leaves@), l),
    ensures
        (r matches Ok(b) && b) == proof_accepts(proof@, root@, pairs_view(leaves@)),
        forall|l: Leaves| #[trigger] fits_tree(proof@, root@, pairs_view(leaves@), l) ==> r matches Ok(true),
{
    let pairs = leaves.iter().map(|(k, v)| (H256::from(*k), H256::from(*v))).collect();
    CompiledMerkleProof(proof.clone()).verify::<Blake2bHasher>(&H256::from(*root), pairs)
}

} // verus!
