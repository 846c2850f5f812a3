//! Building a tree from key/value pairs and producing self-checked inclusion
//! and non-inclusion proofs for some of its keys.
use crate::tree::{
    agrees, claimed_keys, compiled_proof, distinct_keys, empty_tree, fits_tree, compiled_for, lemma_leaves_of_distinct, no_leaves,
    lemma_root_ignores_order, Leaves, MAX_CLAIMS, leaves_of, pairs_view, proof_accepts, proof_made_for, key_set, proof_compile, proof_verify, root_of,
    tree_leaves, tree_proof, tree_root, tree_update, zero_hash, Hash256, Smt,
};
use vstd::prelude::*;

verus! {

/// Why no proof was produced.
#[derive(Debug, Clone, Copy, PartialEq, Eq, Structural)]
pub enum ProofError {
    /// The key and value lists differ in length.
    LengthMismatch,
    /// No key was selected to be proved.
    EmptySelection,
    /// A selected index lies past the end of the key list.
    IndexOutOfRange,
    /// The same key was selected twice.
    DuplicateKey,
    /// The tree could not produce a proof for the selected keys.
    Generation,
    /// The proof could not be compiled for the selected keys.
    Compilation,
    /// The compiled proof did not recompute the tree's root.
    Verification,
    /// A compiled proof could not be decoded against the claimed leaves.
    Malformed,
    /// More keys were claimed than one check of an outside proof can hold.
    TooManyKeys,
}

/// The value under which a key is absent.
pub fn non_inclusion() -> (r: Hash256)
    ensures
        r@ == zero_hash(),
{
    let r: Hash256 = [0u8; 32];
    assert(r@ =~= zero_hash());
    r
}

/// The placeholder value given to keys listed without one: a leading 1, then zeros.
pub fn inclusion() -> (r: Hash256)
    ensures
        r@ == seq![1u8].add(Seq::new(31, |i: int| 0u8)),
{
    let mut r: Hash256 = [0u8; 32];
    r[0] = 1;
    assert(r@ =~= seq![1u8].add(Seq::new(31, |i: int| 0u8)));
    r
}

/// `keys` and `values` paired up index by index, as far as the shorter goes.
pub open spec fn zipped(keys: Seq<Hash256>, values: Seq<Hash256>) -> Seq<(Hash256, Hash256)> {
    Seq::new(
        if keys.len() <= values.len() {
            keys.len()
        } else {
            values.len()
        },
        |i: int| (keys[i], values[i]),
    )
}

/// The pairs at the positions `indexes`, in that order.
pub open spec fn selected(keys: Seq<Hash256>, values: Seq<Hash256>, indexes: Seq<usize>) -> Seq<
    (Hash256, Hash256),
> {
    indexes.map_values(|i: usize| (keys[i as int], values[i as int]))
}

/// Each key paired with the absence value.
pub open spec fn absent_pairs(keys: Seq<Hash256>) -> Seq<(Seq<u8>, Seq<u8>)> {
    keys.map_values(|k: Hash256| (k@, zero_hash()))
}

/// No two entries are the same hash.
pub open spec fn distinct_hashes(hs: Seq<Hash256>) -> bool {
    forall|i: int, j: int| 0 <= i < j < hs.len() ==> hs[i]@ != hs[j]@
}

/// The error that an inclusion request is refused with before any tree work.
pub open spec fn inclusion_refusal(
    keys: Seq<Hash256>,
    values: Seq<Hash256>,
    indexes: Seq<usize>,
) -> Option<ProofError> {
    if keys.len() != values.len() {
        Some(ProofError::LengthMismatch)
    } else if indexes.len() == 0 {
        Some(ProofError::EmptySelection)
    } else if exists|i: int| 0 <= i < indexes.len() && indexes[i] >= keys.len() {
        Some(ProofError::IndexOutOfRange)
    } else if !distinct_keys(pairs_view(selected(keys, values, indexes))) {
        Some(ProofError::DuplicateKey)
    } else {
        None
    }
}

/// The error that a non-inclusion request is refused with before any tree work.
pub open spec fn non_inclusion_refusal(absent: Seq<Hash256>) -> Option<ProofError> {
    if absent.len() == 0 {
        Some(ProofError::EmptySelection)
    } else if !distinct_hashes(absent) {
        Some(ProofError::DuplicateKey)
    } else {
        None
    }
}

/// Whether two hashes hold the same bytes.
pub fn same_hash(a: &Hash256, b: &Hash256) -> (r: bool)
    ensures
        r == (a@ == b@),
{
    let mut i: usize = 0;
    while i < 32
        invariant
            i <= 32,
            forall|k: int| 0 <= k < i ==> a@[k] == b@[k],
        decreases 32 - i,
    {
        if a[i] != b[i] {
            return false;
        }
        i = i + 1;
    }
    assert(a@ =~= b@);
    true
}

/// Whether no hash occurs twice in `hs`.
pub fn all_distinct(hs: &Vec<Hash256>) -> (r: bool)
    ensures
        r == distinct_hashes(hs@),
{
    let n = hs.len();
    let mut j: usize = 1;
    while j < n
        invariant
            n == hs@.len(),
            1 <= j,
            forall|a: int, b: int| 0 <= a < b < j && b < n ==> hs@[a]@ != hs@[b]@,
        decreases n - j,
    {
        let mut i: usize = 0;
        while i < j
            invariant
                n == hs@.len(),
                1 <= j < n,
                i <= j,
                forall|a: int, b: int| 0 <= a < b < j ==> hs@[a]@ != hs@[b]@,
                forall|a: int| 0 <= a < i ==> hs@[a]@ != hs@[j as int]@,
            decreases j - i,
        {
            if same_hash(&hs[i], &hs[j]) {
                return false;
            }
            i = i + 1;
        }
        j = j + 1;
    }
    true
}

/// Builds the tree holding `pairs`, written in order: a later pair for a key
/// overrides an earlier one, and the zero value removes the key.
pub fn new_smt(pairs: &Vec<(Hash256, Hash256)>) -> (r: Smt)
    ensures
        tree_leaves(r) == leaves_of(pairs_view(pairs@)),
        tree_leaves(r) == no_leaves() ==> root_of(tree_leaves(r)) == zero_hash(),
{
    let mut t = empty_tree();
    let mut i: usize = 0;
    while i < pairs.len()
        invariant
            i <= pairs@.len(),
            tree_leaves(t) == leaves_of(pairs_view(pairs@.subrange(0, i as int))),
            root_of(no_leaves()) == zero_hash(),
        decreases pairs@.len() - i,
    {
        let (k, v) = &pairs[i];
        tree_update(&mut t, k, v);
        proof {
            let next = pairs_view(pairs@.subrange(0, i + 1));
            assert(next.drop_last() =~= pairs_view(pairs@.subrange(0, i as int)));
        }
        i = i + 1;
    }
    assert(pairs@.subrange(0, pairs@.len() as int) =~= pairs@);
    t
}

/// The root of the tree that holds `pairs`, written in order.
pub fn smt_root(pairs: &Vec<(Hash256, Hash256)>) -> (r: Hash256)
    ensures
        r@ == root_of(leaves_of(pairs_view(pairs@))),
        leaves_of(pairs_view(pairs@)) == no_leaves() ==> r@ == zero_hash(),
{
    let t = new_smt(pairs);
    tree_root(&t)
}

/// Building from the same set of pairs, no two with one key, gives the same
/// root whatever order the pairs come in.
pub proof fn lemma_smt_root_ignores_order(a: Seq<(Hash256, Hash256)>, b: Seq<(Hash256, Hash256)>)
    requires
        distinct_keys(pairs_view(a)),
        distinct_keys(pairs_view(b)),
        a.to_set() == b.to_set(),
    ensures
        root_of(leaves_of(pairs_view(a))) == root_of(leaves_of(pairs_view(b))),
{
    let va = pairs_view(a);
    let vb = pairs_view(b);
    assert forall|x: (Seq<u8>, Seq<u8>)| va.contains(x) implies vb.contains(x) by {
        let i = choose|i: int| 0 <= i < va.len() && va[i] == x;
        assert(b.to_set().contains(a[i]));
        let j = choose|j: int| 0 <= j < b.len() && b[j] == a[i];
        assert(vb[j] == x);
    }
    assert forall|x: (Seq<u8>, Seq<u8>)| vb.contains(x) implies va.contains(x) by {
        let j = choose|j: int| 0 <= j < vb.len() && vb[j] == x;
        assert(a.to_set().contains(b[j]));
        let i = choose|i: int| 0 <= i < a.len() && a[i] == b[j];
        assert(va[i] == x);
    }
    assert(va.to_set() =~= vb.to_set());
    lemma_root_ignores_order(va, vb);
}

/// Checks a compiled proof of the claimed `pairs` against `root`; at most
/// `MAX_CLAIMS` pairs can be checked at once.
pub fn verify_proof(proof: &Vec<u8>, root: &Hash256, pairs: &Vec<(Hash256, Hash256)>) -> (r: Result<
    bool,
    ProofError,
>)
    ensures
        pairs@.len() > MAX_CLAIMS ==> r == Err::<bool, ProofError>(ProofError::TooManyKeys),
        r matches Ok(b) ==> b == proof_accepts(proof@, root@, pairs_view(pairs@)),
        pairs@.len() <= MAX_CLAIMS && r is Err ==> r == Err::<bool, ProofError>(ProofError::Malformed)
            && !proof_accepts(proof@, root@, pairs_view(pairs@)),
        forall|l: Leaves| #[trigger]
            fits_tree(proof@, root@, pairs_view(pairs@), l) && pairs@.len() <= MAX_CLAIMS ==> r
                == Ok::<bool, ProofError>(true),
{
    if pairs.len() > MAX_CLAIMS {
        return Err(ProofError::TooManyKeys);
    }
    match proof_verify(proof, root, pairs) {
        Ok(b) => Ok(b),
        Err(_) => Err(ProofError::Malformed),
    }
}

/// The claimed keys are the given keys, one for one.
pub open spec fn claims_keys(keys: Seq<Hash256>, claimed: Seq<(Hash256, Hash256)>) -> bool {
    claimed.len() == keys.len() && forall|i: int| 0 <= i < keys.len() ==> claimed[i].0 == keys[i]
}

proof fn lemma_claims_keys(keys: Seq<Hash256>, claimed: Seq<(Hash256, Hash256)>)
    requires
        claims_keys(keys, claimed),
    ensures
        claimed_keys(pairs_view(claimed)) == key_set(keys),
        distinct_hashes(keys) ==> distinct_keys(pairs_view(claimed)),
{
    let pv = pairs_view(claimed);
    assert(pv.map_values(|p: (Seq<u8>, Seq<u8>)| p.0) =~= keys.map_values(|k: Hash256| k@));
    if distinct_hashes(keys) {
        assert forall|a: int, b: int| 0 <= a < b < pv.len() implies pv[a].0 != pv[b].0 by {
            assert(keys[a]@ != keys[b]@);
        }
    }
}

/// Proves `keys` in `t`, compiles the proof, and keeps it only when it
/// recomputes `root` from the `claimed` leaves; it does whenever the claims
/// agree with the tree and `root` is its root.
fn prove_and_check(t: &Smt, root: &Hash256, keys: &Vec<Hash256>, claimed: &Vec<(Hash256, Hash256)>) -> (r:
    Result<Vec<u8>, ProofError>)
    requires
        keys@.len() > 0,
        distinct_hashes(keys@),
        claims_keys(keys@, claimed@),
    ensures
        r is Ok ==> proof_accepts(r->Ok_0@, root@, pairs_view(claimed@)) && r->Ok_0@ == compiled_proof(
            tree_leaves(*t),
            claimed_keys(pairs_view(claimed@)),
        ),
        r is Err ==> r == Err::<Vec<u8>, ProofError>(ProofError::Verification),
        root@ == root_of(tree_leaves(*t)) && agrees(pairs_view(claimed@), tree_leaves(*t)) ==> r is Ok,
{
    proof {
        lemma_claims_keys(keys@, claimed@);
    }
    let raw = match tree_proof(t, keys) {
        Ok(p) => p,
        Err(_) => {
            return Err(ProofError::Verification);
        },
    };
    let ghost l = tree_leaves(*t);
    assert(proof_made_for(raw, l, key_set(keys@)));
    let compiled = match proof_compile(raw, keys) {
        Ok(c) => c,
        Err(_) => {
            return Err(ProofError::Verification);
        },
    };
    assert(compiled@ == compiled_proof(l, key_set(keys@)));
    assert(compiled_for(compiled@, pairs_view(claimed@), l));
    let outcome = proof_verify(&compiled, root, claimed);
    proof {
        if root@ == root_of(l) && agrees(pairs_view(claimed@), l) {
            assert(fits_tree(compiled@, root@, pairs_view(claimed@), l));
        }
    }
    match outcome {
        Ok(true) => Ok(compiled),
        _ => Err(ProofError::Verification),
    }
}

/// Pairs `keys` and `values` index by index, as far as the shorter goes.
fn zip_pairs(keys: &Vec<Hash256>, values: &Vec<Hash256>) -> (r: Vec<(Hash256, Hash256)>)
    ensures
        r@ == zipped(keys@, values@),
{
    let n = if keys.len() <= values.len() {
        keys.len()
    } else {
        values.len()
    };
    let mut r: Vec<(Hash256, Hash256)> = Vec::new();
    let mut i: usize = 0;
    while i < n
        invariant
            n <= keys@.len(),
            n <= values@.len(),
            n == zipped(keys@, values@).len(),
            i <= n,
            r@ =~= zipped(keys@, values@).subrange(0, i as int),
        decreases n - i,
    {
        r.push((keys[i], values[i]));
        i = i + 1;
    }
    r
}

/// With distinct keys in the tree's pairs, the pairs picked by `indexes`
/// agree with the tree's leaves.
proof fn lemma_selected_agree(keys: Seq<Hash256>, values: Seq<Hash256>, indexes: Seq<usize>)
    requires
        keys.len() == values.len(),
        forall|i: int| 0 <= i < indexes.len() ==> indexes[i] < keys.len(),
        distinct_keys(pairs_view(zipped(keys, values))),
    ensures
        agrees(pairs_view(selected(keys, values, indexes)), leaves_of(pairs_view(zipped(keys, values)))),
{
    let z = pairs_view(zipped(keys, values));
    let sv = pairs_view(selected(keys, values, indexes));
    assert forall|j: int| 0 <= j < sv.len() implies if leaves_of(z).contains_key(#[trigger] sv[j].0) {
        leaves_of(z)[sv[j].0] == sv[j].1
    } else {
        sv[j].1 == zero_hash()
    } by {
        let x = indexes[j] as int;
        assert(sv[j] == z[x]);
        lemma_leaves_of_distinct(z, z[x].0);
        if z[x].1 != zero_hash() {
            assert(leaves_of(z).contains_key(z[x].0));
        } else if leaves_of(z).contains_key(z[x].0) {
            let i = choose|i: int| 0 <= i < z.len() && z[i].0 == z[x].0 && z[i].1 != zero_hash();
            assert(i == x);
        }
    }
}

/// Builds the tree over `key_hashes` paired with `value_hashes`, and proves
/// that the keys at `indexes` hold their values in it. Returns the root and
/// the compiled proof, which has been checked against that root. When the
/// tree's keys are distinct, a request that is not refused succeeds.
pub fn make_inclusion_proof(
    key_hashes: Vec<Hash256>,
    value_hashes: Vec<Hash256>,
    indexes: Vec<usize>,
) -> (r: Result<(Hash256, Vec<u8>), ProofError>)
    ensures
        inclusion_refusal(key_hashes@, value_hashes@, indexes@) matches Some(e) ==> r == Err::<
            (Hash256, Vec<u8>),
            ProofError,
        >(e),
        inclusion_refusal(key_hashes@, value_hashes@, indexes@) is None && r is Ok ==> r->Ok_0.0@
            == root_of(leaves_of(pairs_view(zipped(key_hashes@, value_hashes@)))) && r->Ok_0.1@
            == compiled_proof(
            leaves_of(pairs_view(zipped(key_hashes@, value_hashes@))),
            claimed_keys(pairs_view(selected(key_hashes@, value_hashes@, indexes@))),
        ) && proof_accepts(
            r->Ok_0.1@,
            r->Ok_0.0@,
            pairs_view(selected(key_hashes@, value_hashes@, indexes@)),
        ),
        inclusion_refusal(key_hashes@, value_hashes@, indexes@) is None && r is Err ==> r == Err::<
            (Hash256, Vec<u8>),
            ProofError,
        >(ProofError::Verification),
        inclusion_refusal(key_hashes@, value_hashes@, indexes@) is None && distinct_keys(
            pairs_view(zipped(key_hashes@, value_hashes@)),
        ) ==> r is Ok,
{
    if key_hashes.len() != value_hashes.len() {
        return Err(ProofError::LengthMismatch);
    }
    if indexes.len() == 0 {
        return Err(ProofError::EmptySelection);
    }
    let n = key_hashes.len();
    let mut claimed: Vec<(Hash256, Hash256)> = Vec::new();
    let mut keys: Vec<Hash256> = Vec::new();
    let mut j: usize = 0;
    while j < indexes.len()
        invariant
            n == key_hashes@.len() == value_hashes@.len(),
            0 < indexes@.len(),
            j <= indexes@.len(),
            forall|a: int| 0 <= a < j ==> indexes@[a] < n,
            claimed@ =~= selected(key_hashes@, value_hashes@, indexes@).subrange(0, j as int),
            keys@.len() == j,
            forall|a: int| 0 <= a < j ==> keys@[a] == claimed@[a].0,
        decreases indexes@.len() - j,
    {
        let i = indexes[j];
        if i >= n {
            return Err(ProofError::IndexOutOfRange);
        }
        claimed.push((key_hashes[i], value_hashes[i]));
        keys.push(key_hashes[i]);
        j = j + 1;
    }
    assert(claimed@ =~= selected(key_hashes@, value_hashes@, indexes@));
    assert(claims_keys(keys@, claimed@));
    let distinct = all_distinct(&keys);
    proof {
        lemma_claims_keys(keys@, claimed@);
        let pv = pairs_view(claimed@);
        if distinct_keys(pv) {
            assert forall|a: int, b: int| 0 <= a < b < keys@.len() implies keys@[a]@
                != keys@[b]@ by {
                assert(pv[a].0 != pv[b].0);
            }
        }
    }
    if !distinct {
        return Err(ProofError::DuplicateKey);
    }
    let pairs = zip_pairs(&key_hashes, &value_hashes);
    let t = new_smt(&pairs);
    let root = tree_root(&t);
    proof {
        if distinct_keys(pairs_view(zipped(key_hashes@, value_hashes@))) {
            lemma_selected_agree(key_hashes@, value_hashes@, indexes@);
        }
    }
    match prove_and_check(&t, &root, &keys, &claimed) {
        Ok(p) => Ok((root, p)),
        Err(e) => Err(e),
    }
}

/// Builds the tree over `key_hashes` paired with `value_hashes` (as far as
/// the shorter list goes), and proves that each of `non_inclusion_keys` holds
/// the absence value in it. Returns the root and the compiled proof, which
/// has been checked against that root. A request that is not refused
/// succeeds when none of the keys is in the tree.
pub fn make_none_inclusion_proof(
    key_hashes: Vec<Hash256>,
    value_hashes: Vec<Hash256>,
    non_inclusion_keys: Vec<Hash256>,
) -> (r: Result<(Hash256, Vec<u8>), ProofError>)
    ensures
        non_inclusion_refusal(non_inclusion_keys@) matches Some(e) ==> r == Err::<
            (Hash256, Vec<u8>),
            ProofError,
        >(e),
        non_inclusion_refusal(non_inclusion_keys@) is None && r is Ok ==> r->Ok_0.0@ == root_of(
            leaves_of(pairs_view(zipped(key_hashes@, value_hashes@))),
        ) && r->Ok_0.1@ == compiled_proof(
            leaves_of(pairs_view(zipped(key_hashes@, value_hashes@))),
            claimed_keys(absent_pairs(non_inclusion_keys@)),
        ) && proof_accepts(r->Ok_0.1@, r->Ok_0.0@, absent_pairs(non_inclusion_keys@)),
        non_inclusion_refusal(non_inclusion_keys@) is None && r is Err ==> r == Err::<
            (Hash256, Vec<u8>),
            ProofError,
        >(ProofError::Verification),
        non_inclusion_refusal(non_inclusion_keys@) is None && (forall|j: int|
            0 <= j < non_inclusion_keys@.len() ==> !leaves_of(
                pairs_view(zipped(key_hashes@, value_hashes@)),
            ).contains_key(#[trigger] non_inclusion_keys@[j]@)) ==> r is Ok,
{
    if non_inclusion_keys.len() == 0 {
        return Err(ProofError::EmptySelection);
    }
    if !all_distinct(&non_inclusion_keys) {
        return Err(ProofError::DuplicateKey);
    }
    let absent = non_inclusion();
    let mut claimed: Vec<(Hash256, Hash256)> = Vec::new();
    let mut j: usize = 0;
    while j < non_inclusion_keys.len()
        invariant
            j <= non_inclusion_keys@.len(),
            absent@ == zero_hash(),
            claimed@.len() == j,
            forall|a: int| 0 <= a < j ==> claimed@[a] == (non_inclusion_keys@[a], absent),
        decreases non_inclusion_keys@.len() - j,
    {
        claimed.push((non_inclusion_keys[j], absent));
        j = j + 1;
    }
    assert(pairs_view(claimed@) =~= absent_pairs(non_inclusion_keys@));
    assert(claims_keys(non_inclusion_keys@, claimed@));
    let pairs = zip_pairs(&key_hashes, &value_hashes);
    let t = new_smt(&pairs);
    let root = tree_root(&t);
    proof {
        let l = tree_leaves(t);
        let pv = pairs_view(claimed@);
        if forall|j: int|
            0 <= j < non_inclusion_keys@.len() ==> !l.contains_key(#[trigger] non_inclusion_keys@[j]@) {
            assert forall|i: int| 0 <= i < pv.len() implies if l.contains_key(#[trigger] pv[i].0) {
                l[pv[i].0] == pv[i].1
            } else {
                pv[i].1 == zero_hash()
            } by {
                assert(pv[i].0 == non_inclusion_keys@[i]@);
            }
        }
    }
    match prove_and_check(&t, &root, &non_inclusion_keys, &claimed) {
        Ok(p) => Ok((root, p)),
        Err(e) => Err(e),
    }
}

} // verus!
