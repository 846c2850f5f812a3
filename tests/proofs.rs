use smt_cli::cli::{choose_mode, split_pairs, ArgError, Mode};
use smt_cli::prover::{
    inclusion, make_inclusion_proof, make_none_inclusion_proof, non_inclusion, smt_root,
    verify_proof, ProofError,
};

fn key(n: u8) -> [u8; 32] {
    let mut k = [0u8; 32];
    k[0] = n;
    k[31] = n.wrapping_mul(7);
    k
}

fn three_keys() -> Vec<[u8; 32]> {
    vec![key(1), key(2), key(3)]
}

fn default_values(n: usize) -> Vec<[u8; 32]> {
    vec![inclusion(); n]
}

#[test]
fn scenario_include_first_and_last() {
    let keys = three_keys();
    let values = default_values(3);
    let (root, proof) = make_inclusion_proof(keys.clone(), values.clone(), vec![0, 2]).unwrap();
    let pairs: Vec<([u8; 32], [u8; 32])> = keys.iter().cloned().zip(values.iter().cloned()).collect();
    assert_eq!(root, smt_root(&pairs));
    let claimed = vec![(keys[0], values[0]), (keys[2], values[2])];
    assert_eq!(verify_proof(&proof, &root, &claimed), Ok(true));
}

#[test]
fn scenario_exclude_absent_key() {
    let keys = three_keys();
    let values = default_values(3);
    let k4 = key(4);
    let (root, proof) = make_none_inclusion_proof(keys.clone(), values, vec![k4]).unwrap();
    assert_eq!(verify_proof(&proof, &root, &vec![(k4, non_inclusion())]), Ok(true));
    assert_ne!(verify_proof(&proof, &root, &vec![(k4, inclusion())]), Ok(true));
}

#[test]
fn round_trip_with_own_values() {
    let keys: Vec<[u8; 32]> = (1..=6).map(key).collect();
    let values: Vec<[u8; 32]> = (1..=6u8).map(|n| [n.wrapping_mul(31); 32]).collect();
    for selection in [vec![0usize], vec![1, 3, 5], vec![5, 4, 3, 2, 1, 0]] {
        let (root, proof) =
            make_inclusion_proof(keys.clone(), values.clone(), selection.clone()).unwrap();
        let claimed: Vec<([u8; 32], [u8; 32])> =
            selection.iter().map(|&i| (keys[i], values[i])).collect();
        assert_eq!(verify_proof(&proof, &root, &claimed), Ok(true));
    }
}

#[test]
fn absence_in_empty_and_full_trees() {
    let (root, proof) = make_none_inclusion_proof(vec![], vec![], vec![key(9)]).unwrap();
    assert_eq!(root, [0u8; 32]);
    assert_eq!(verify_proof(&proof, &root, &vec![(key(9), [0u8; 32])]), Ok(true));
    let keys = three_keys();
    let (root, proof) =
        make_none_inclusion_proof(keys.clone(), default_values(3), vec![key(7), key(8)]).unwrap();
    let claimed = vec![(key(7), [0u8; 32]), (key(8), [0u8; 32])];
    assert_eq!(verify_proof(&proof, &root, &claimed), Ok(true));
}

#[test]
fn root_ignores_insertion_order() {
    let a = vec![(key(1), [1u8; 32]), (key(2), [2u8; 32]), (key(3), [3u8; 32])];
    let b = vec![(key(3), [3u8; 32]), (key(1), [1u8; 32]), (key(2), [2u8; 32])];
    assert_eq!(smt_root(&a), smt_root(&b));
    assert_eq!(smt_root(&a), smt_root(&a));
    assert_ne!(smt_root(&a), [0u8; 32]);
}

#[test]
fn zero_value_deletes_and_last_write_wins() {
    let one = vec![(key(1), [1u8; 32])];
    let deleted = vec![(key(1), [1u8; 32]), (key(2), [5u8; 32]), (key(2), [0u8; 32])];
    assert_eq!(smt_root(&one), smt_root(&deleted));
    let overwritten = vec![(key(1), [9u8; 32]), (key(1), [1u8; 32])];
    assert_eq!(smt_root(&one), smt_root(&overwritten));
    assert_eq!(smt_root(&vec![]), [0u8; 32]);
}

#[test]
fn flipped_bit_does_not_verify() {
    let keys = three_keys();
    let values = default_values(3);
    let (root, proof) = make_inclusion_proof(keys.clone(), values.clone(), vec![0, 2]).unwrap();
    let claimed = vec![(keys[0], values[0]), (keys[2], values[2])];
    for byte in 0..proof.len() {
        for bit in 0..8 {
            let mut bad = proof.clone();
            bad[byte] ^= 1 << bit;
            assert_ne!(verify_proof(&bad, &root, &claimed), Ok(true));
        }
    }
    let mut wrong_root = root;
    wrong_root[0] ^= 1;
    assert_eq!(verify_proof(&proof, &wrong_root, &claimed), Ok(false));
}

#[test]
fn garbage_proof_is_malformed() {
    let root = smt_root(&vec![(key(1), [1u8; 32])]);
    assert_eq!(
        verify_proof(&vec![0xff], &root, &vec![(key(1), [1u8; 32])]),
        Err(ProofError::Malformed)
    );
}

fn wide_key(n: u32) -> [u8; 32] {
    let mut k = [0u8; 32];
    k[0] = (n >> 8) as u8;
    k[1] = n as u8;
    k[2] = 0x5a;
    k
}

#[test]
fn more_than_257_keys_round_trip() {
    let keys: Vec<[u8; 32]> = (0..300u32).map(wide_key).collect();
    let values: Vec<[u8; 32]> = (0..300u32).map(|n| [(n % 251) as u8 + 1; 32]).collect();
    let selection: Vec<usize> = (0..300).collect();
    let (root, proof) = make_inclusion_proof(keys.clone(), values.clone(), selection).unwrap();
    let claimed: Vec<([u8; 32], [u8; 32])> = keys.iter().cloned().zip(values.iter().cloned()).collect();
    assert_eq!(root, smt_root(&claimed));
    let absent: Vec<[u8; 32]> = (1000..1300u32).map(wide_key).collect();
    let (root2, _) = make_none_inclusion_proof(keys, values, absent).unwrap();
    assert_eq!(root2, root);
}

#[test]
fn emptied_tree_has_zero_root() {
    let emptied = vec![(key(1), [1u8; 32]), (key(2), [2u8; 32]), (key(1), [0u8; 32]), (key(2), [0u8; 32])];
    assert_eq!(smt_root(&emptied), [0u8; 32]);
}

#[test]
fn too_many_claims_are_refused() {
    let claims = vec![(key(1), [1u8; 32]); 258];
    assert_eq!(
        verify_proof(&vec![0x4c; 258], &[0u8; 32], &claims),
        Err(ProofError::TooManyKeys)
    );
}

#[test]
fn inclusion_request_errors() {
    let keys = three_keys();
    let values = default_values(3);
    assert_eq!(
        make_inclusion_proof(keys.clone(), default_values(2), vec![0]),
        Err(ProofError::LengthMismatch)
    );
    assert_eq!(
        make_inclusion_proof(keys.clone(), values.clone(), vec![]),
        Err(ProofError::EmptySelection)
    );
    assert_eq!(
        make_inclusion_proof(keys.clone(), values.clone(), vec![0, 3]),
        Err(ProofError::IndexOutOfRange)
    );
    assert_eq!(
        make_inclusion_proof(keys.clone(), values.clone(), vec![1, 1]),
        Err(ProofError::DuplicateKey)
    );

}

#[test]
fn overwritten_pair_fails_self_check() {
    let keys = vec![key(1), key(1)];
    let values = vec![[1u8; 32], [2u8; 32]];
    assert_eq!(
        make_inclusion_proof(keys, values, vec![0]),
        Err(ProofError::Verification)
    );
}

#[test]
fn non_inclusion_request_errors() {
    let keys = three_keys();
    let values = default_values(3);
    let (root, _) = make_none_inclusion_proof(keys.clone(), default_values(1), vec![key(4)]).unwrap();
    assert_eq!(root, smt_root(&vec![(key(1), inclusion())]));
    assert_eq!(
        make_none_inclusion_proof(keys.clone(), values.clone(), vec![]),
        Err(ProofError::EmptySelection)
    );
    assert_eq!(
        make_none_inclusion_proof(keys.clone(), values.clone(), vec![key(4), key(4)]),
        Err(ProofError::DuplicateKey)
    );
    assert_eq!(
        make_none_inclusion_proof(keys.clone(), values, vec![key(2)]),
        Err(ProofError::Verification)
    );
}

#[test]
fn sentinel_values() {
    assert_eq!(non_inclusion(), [0u8; 32]);
    let mut one = [0u8; 32];
    one[0] = 1;
    assert_eq!(inclusion(), one);
}

#[test]
fn mode_choice() {
    assert_eq!(choose_mode(true, false), Ok(Mode::Include));
    assert_eq!(choose_mode(false, true), Ok(Mode::Exclude));
    assert_eq!(choose_mode(true, true), Err(ArgError::BothModes));
    assert_eq!(choose_mode(false, false), Err(ArgError::NoMode));
}

#[test]
fn key_value_split() {
    let h = vec![key(1), [1u8; 32], key(2), [2u8; 32]];
    assert_eq!(
        split_pairs(&h, true),
        Ok((vec![key(1), key(2)], vec![[1u8; 32], [2u8; 32]]))
    );
    assert_eq!(split_pairs(&h[..3].to_vec(), true), Err(ArgError::OddCount));
    assert_eq!(
        split_pairs(&vec![key(1), key(2)], false),
        Ok((vec![key(1), key(2)], vec![inclusion(), inclusion()]))
    );
}
