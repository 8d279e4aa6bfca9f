use tumbler::hashing::{derive_nullifier, hash_commitment};
use tumbler::instructions::{parse_instruction, PoolInstruction};
use tumbler::merkle::{compute_root, verify_merkle_proof};
use tumbler::state::MixerState;
use tumbler::PoolError;

const SECRET: [u8; 32] = [7u8; 32];

fn deposit_payload(amount: u64, secret: &[u8; 32]) -> Vec<u8> {
    let mut data = vec![0u8];
    data.extend_from_slice(&amount.to_le_bytes());
    data.extend_from_slice(secret);
    data
}

#[test]
fn commitment_is_deterministic() {
    let a = hash_commitment(1000, &SECRET);
    let b = hash_commitment(1000, &SECRET);
    assert_eq!(a, b);
}

#[test]
fn commitment_depends_on_amount_and_secret() {
    let base = hash_commitment(1000, &SECRET);
    let other_amount = hash_commitment(1001, &SECRET);
    let mut secret2 = SECRET;
    secret2[0] ^= 1;
    let other_secret = hash_commitment(1000, &secret2);
    assert_ne!(base, other_amount);
    assert_ne!(base, other_secret);
}

#[test]
fn commitment_is_not_the_secret() {
    let c = hash_commitment(0, &SECRET);
    assert_ne!(c, SECRET);
    assert_ne!(c, [0u8; 32]);
}

#[test]
fn nullifier_binds_the_leaf_index() {
    let n0 = derive_nullifier(&SECRET, 0);
    let n1 = derive_nullifier(&SECRET, 1);
    assert_ne!(n0, n1);
    assert_eq!(n0, derive_nullifier(&SECRET, 0));
    assert_ne!(n0, hash_commitment(0, &SECRET));
}

#[test]
fn incremental_root_equals_recomputed_root() {
    let mut state = MixerState::new(3, 8);
    let mut leaves: Vec<[u8; 32]> = Vec::new();
    for i in 0..5u64 {
        let c = hash_commitment(100 + i, &SECRET);
        assert_eq!(state.add_commitment(c), Ok(i));
        leaves.push(c);
        assert_eq!(state.current_root(), compute_root(&leaves, 3));
    }
}

#[test]
fn empty_roots_differ_by_depth_but_not_by_leaf_history() {
    let a = MixerState::new(4, 1);
    let b = MixerState::new(4, 9);
    assert_eq!(a.current_root(), b.current_root());
    let c = MixerState::new(5, 1);
    assert_ne!(a.current_root(), c.current_root());
}

#[test]
fn generated_proofs_verify_for_every_leaf() {
    let mut state = MixerState::new(3, 8);
    let mut leaves: Vec<[u8; 32]> = Vec::new();
    for i in 0..5u64 {
        let c = hash_commitment(i, &SECRET);
        state.add_commitment(c).unwrap();
        leaves.push(c);
    }
    let root = state.current_root();
    for i in 0..5u64 {
        let proof = state.generate_proof(i).unwrap();
        assert_eq!(proof.len(), 3);
        assert!(verify_merkle_proof(&root, &leaves[i as usize], &proof, i, 3));
    }
}

#[test]
fn tampered_proof_is_rejected() {
    let mut state = MixerState::new(3, 8);
    let leaf = hash_commitment(42, &SECRET);
    state.add_commitment(leaf).unwrap();
    let root = state.current_root();
    let proof = state.generate_proof(0).unwrap();
    assert!(verify_merkle_proof(&root, &leaf, &proof, 0, 3));
    for level in 0..proof.len() {
        let mut tampered = proof.clone();
        tampered[level][0] ^= 1;
        assert!(!verify_merkle_proof(&root, &leaf, &tampered, 0, 3));
    }
}

#[test]
fn wrong_length_proof_is_rejected() {
    let mut state = MixerState::new(3, 8);
    let leaf = hash_commitment(42, &SECRET);
    state.add_commitment(leaf).unwrap();
    let root = state.current_root();
    let proof = state.generate_proof(0).unwrap();
    let mut short = proof.clone();
    short.pop();
    assert!(!verify_merkle_proof(&root, &leaf, &short, 0, 3));
    let mut long = proof.clone();
    long.push([0u8; 32]);
    assert!(!verify_merkle_proof(&root, &leaf, &long, 0, 3));
}

#[test]
fn stale_root_is_rejected() {
    let mut state = MixerState::new(3, 8);
    let leaf = hash_commitment(1, &SECRET);
    state.add_commitment(leaf).unwrap();
    let stale_root = state.current_root();
    let stale_proof = state.generate_proof(0).unwrap();
    state.add_commitment(hash_commitment(2, &SECRET)).unwrap();
    let new_root = state.current_root();
    assert_ne!(stale_root, new_root);
    assert!(!verify_merkle_proof(&new_root, &leaf, &stale_proof, 0, 3));
    let fresh_proof = state.generate_proof(0).unwrap();
    assert!(verify_merkle_proof(&new_root, &leaf, &fresh_proof, 0, 3));
}

#[test]
fn wrong_leaf_position_is_rejected() {
    let mut state = MixerState::new(3, 8);
    let leaf0 = hash_commitment(1, &SECRET);
    let leaf1 = hash_commitment(2, &SECRET);
    state.add_commitment(leaf0).unwrap();
    state.add_commitment(leaf1).unwrap();
    let root = state.current_root();
    let proof0 = state.generate_proof(0).unwrap();
    assert!(!verify_merkle_proof(&root, &leaf1, &proof0, 0, 3));
    assert!(!verify_merkle_proof(&root, &leaf0, &proof0, 1, 3));
}

#[test]
fn double_spend_is_prevented() {
    let mut state = MixerState::new(3, 8);
    let n = derive_nullifier(&SECRET, 0);
    assert!(!state.is_nullifier_spent(&n));
    assert_eq!(state.mark_nullifier_spent(&n), Ok(()));
    assert!(state.is_nullifier_spent(&n));
    assert_eq!(state.mark_nullifier_spent(&n), Err(PoolError::AlreadySpent));
    assert!(state.is_nullifier_spent(&n));
}

#[test]
fn nullifier_capacity_is_enforced() {
    let mut state = MixerState::new(3, 1);
    let n0 = derive_nullifier(&SECRET, 0);
    let n1 = derive_nullifier(&SECRET, 1);
    assert_eq!(state.mark_nullifier_spent(&n0), Ok(()));
    assert_eq!(state.mark_nullifier_spent(&n1), Err(PoolError::StorageTooSmall));
    assert!(state.is_nullifier_spent(&n0));
    assert!(!state.is_nullifier_spent(&n1));
}

#[test]
fn pool_capacity_is_enforced() {
    let mut state = MixerState::new(2, 8);
    for i in 0..4u64 {
        assert_eq!(state.add_commitment(hash_commitment(i, &SECRET)), Ok(i));
    }
    let root_before = state.current_root();
    let overflow = hash_commitment(99, &SECRET);
    assert_eq!(state.add_commitment(overflow), Err(PoolError::PoolFull));
    assert_eq!(state.leaf_count(), 4);
    assert_eq!(state.current_root(), root_before);
    assert_eq!(state.process_deposit(99, &SECRET), Err(PoolError::PoolFull));
    assert_eq!(state.leaf_count(), 4);
    assert_eq!(state.current_root(), root_before);
}

#[test]
fn depth_zero_pool_holds_one_leaf() {
    let mut state = MixerState::new(0, 1);
    let leaf = hash_commitment(5, &SECRET);
    assert_eq!(state.add_commitment(leaf), Ok(0));
    assert_eq!(state.current_root(), leaf);
    assert_eq!(state.add_commitment(leaf), Err(PoolError::PoolFull));
    let proof = state.generate_proof(0).unwrap();
    assert!(proof.is_empty());
    assert!(verify_merkle_proof(&state.current_root(), &leaf, &proof, 0, 0));
}

#[test]
fn maximum_depth_pool_accepts_deposits() {
    let mut state = MixerState::new(32, 2);
    assert_eq!(state.process_deposit(7, &SECRET), Ok(0));
    assert_eq!(state.process_deposit(8, &SECRET), Ok(1));
    let commitment = hash_commitment(7, &SECRET);
    let proof = state.generate_proof(0).unwrap();
    assert_eq!(proof.len(), 32);
    assert!(verify_merkle_proof(&state.current_root(), &commitment, &proof, 0, 32));
}

#[test]
fn generate_proof_rejects_unfilled_index() {
    let mut state = MixerState::new(3, 8);
    state.add_commitment(hash_commitment(1, &SECRET)).unwrap();
    assert!(state.generate_proof(0).is_ok());
    assert_eq!(state.generate_proof(1), Err(PoolError::InvalidInstructionData));
    assert_eq!(state.generate_proof(7), Err(PoolError::InvalidInstructionData));
}

#[test]
fn store_roundtrip_preserves_the_state() {
    let mut state = MixerState::new(3, 4);
    let mut leaves: Vec<[u8; 32]> = Vec::new();
    for i in 0..3u64 {
        let c = hash_commitment(i, &SECRET);
        state.add_commitment(c).unwrap();
        leaves.push(c);
    }
    let n = derive_nullifier(&SECRET, 0);
    state.mark_nullifier_spent(&n).unwrap();
    let mut buffer = vec![0xAAu8; 57 + 32 * 4 + 10];
    assert_eq!(state.serialize(&mut buffer), Ok(()));
    assert_eq!(&buffer[buffer.len() - 10..], &[0xAAu8; 10]);
    let restored = MixerState::deserialize(&buffer, leaves.clone()).unwrap();
    assert_eq!(restored.current_root(), state.current_root());
    assert_eq!(restored.leaf_count(), 3);
    assert_eq!(restored.tree_depth(), 3);
    assert_eq!(restored.nullifier_capacity(), 4);
    assert_eq!(restored.nullifier_count(), 1);
    assert!(restored.is_nullifier_spent(&n));
    assert!(!restored.is_nullifier_spent(&derive_nullifier(&SECRET, 1)));
}

#[test]
fn serialize_rejects_small_buffer() {
    let state = MixerState::new(3, 4);
    let mut buffer = vec![0u8; 57 + 32 * 4 - 1];
    let before = buffer.clone();
    assert_eq!(state.serialize(&mut buffer), Err(PoolError::StorageTooSmall));
    assert_eq!(buffer, before);
}

#[test]
fn deserialize_rejects_malformed_records() {
    let mut state = MixerState::new(3, 4);
    let c = hash_commitment(5, &SECRET);
    state.add_commitment(c).unwrap();
    let leaves = vec![c];
    let mut buffer = vec![0u8; 57 + 32 * 4];
    state.serialize(&mut buffer).unwrap();

    assert!(MixerState::deserialize(&buffer, leaves.clone()).is_ok());
    assert_eq!(
        MixerState::deserialize(&buffer[..56], leaves.clone()).unwrap_err(),
        PoolError::InvalidAccountData
    );

    let mut bad_root = buffer.clone();
    bad_root[0] ^= 1;
    assert_eq!(
        MixerState::deserialize(&bad_root, leaves.clone()).unwrap_err(),
        PoolError::InvalidAccountData
    );

    let mut bad_depth = buffer.clone();
    bad_depth[40] = 33;
    assert_eq!(
        MixerState::deserialize(&bad_depth, leaves.clone()).unwrap_err(),
        PoolError::InvalidAccountData
    );

    let mut bad_ncount = buffer.clone();
    bad_ncount[41] = 5;
    assert_eq!(
        MixerState::deserialize(&bad_ncount, leaves.clone()).unwrap_err(),
        PoolError::InvalidAccountData
    );

    let wrong_leaves = vec![c, hash_commitment(6, &SECRET)];
    assert_eq!(
        MixerState::deserialize(&buffer, wrong_leaves).unwrap_err(),
        PoolError::InvalidAccountData
    );

    assert_eq!(
        MixerState::deserialize(&buffer, Vec::new()).unwrap_err(),
        PoolError::InvalidAccountData
    );
}

#[test]
fn parse_deposit_payload() {
    let data = deposit_payload(1000, &SECRET);
    match parse_instruction(&data).unwrap() {
        PoolInstruction::Deposit { amount, secret } => {
            assert_eq!(amount, 1000);
            assert_eq!(secret, SECRET);
        }
        _ => panic!("expected a deposit"),
    }
}

#[test]
fn parse_withdraw_payload() {
    let nullifier = derive_nullifier(&SECRET, 2);
    let leaf = hash_commitment(9, &SECRET);
    let sib = [3u8; 32];
    let mut data = vec![1u8];
    data.extend_from_slice(&nullifier);
    data.extend_from_slice(&leaf);
    data.extend_from_slice(&2u64.to_le_bytes());
    data.extend_from_slice(&sib);
    data.extend_from_slice(&sib);
    match parse_instruction(&data).unwrap() {
        PoolInstruction::Withdraw { nullifier: n, leaf: l, leaf_index, siblings } => {
            assert_eq!(n, nullifier);
            assert_eq!(l, leaf);
            assert_eq!(leaf_index, 2);
            assert_eq!(siblings, vec![sib, sib]);
        }
        _ => panic!("expected a withdraw"),
    }
}

#[test]
fn parse_rejects_malformed_payloads() {
    assert_eq!(parse_instruction(&[]), Err(PoolError::InvalidInstructionData));
    assert_eq!(parse_instruction(&[2u8; 41]), Err(PoolError::InvalidInstructionData));
    assert_eq!(parse_instruction(&[0u8; 40]), Err(PoolError::InvalidInstructionData));
    assert_eq!(parse_instruction(&[0u8; 42]), Err(PoolError::InvalidInstructionData));
    assert_eq!(parse_instruction(&[1u8; 72]), Err(PoolError::InvalidInstructionData));
    assert_eq!(parse_instruction(&[1u8; 74]), Err(PoolError::InvalidInstructionData));
}

#[test]
fn end_to_end_deposit_and_withdraw() {
    let mut state = MixerState::new(3, 8);

    let index = state.process_deposit(1000, &SECRET).unwrap();
    assert_eq!(index, 0);
    let commitment = hash_commitment(1000, &SECRET);
    let root0 = state.current_root();
    let leaves = vec![commitment];
    assert_eq!(root0, compute_root(&leaves, 3));

    let proof = state.generate_proof(0).unwrap();
    assert!(verify_merkle_proof(&root0, &commitment, &proof, 0, 3));

    let nullifier = derive_nullifier(&SECRET, 0);
    assert_eq!(state.process_withdraw(&nullifier, &commitment, 0, &proof), Ok(()));
    assert!(state.is_nullifier_spent(&nullifier));

    assert_eq!(
        state.process_withdraw(&nullifier, &commitment, 0, &proof),
        Err(PoolError::AlreadySpent)
    );

    let other_nullifier = derive_nullifier(&SECRET, 1);
    let mut short_proof = proof.clone();
    short_proof.pop();
    assert_eq!(
        state.process_withdraw(&other_nullifier, &commitment, 0, &short_proof),
        Err(PoolError::ProofInvalid)
    );
    assert!(!state.is_nullifier_spent(&other_nullifier));

    let mut bad_proof = proof.clone();
    bad_proof[1][5] ^= 0xFF;
    assert_eq!(
        state.process_withdraw(&other_nullifier, &commitment, 0, &bad_proof),
        Err(PoolError::ProofInvalid)
    );
}
