use rand::RngCore;
use state_tree::block_meta::{BlockHeaderExtra, EpochUncleSummary, UncleSummary};
use state_tree::hash::{placeholder_hash, update_nibble, HashValue};
use state_tree::merkle_proof::SparseMerkleProof;
use state_tree::state_tree::StateTree;
use state_tree::store::MockStateNodeStore;
use state_tree::StateError;

fn random_hash() -> HashValue {
    let mut bytes = vec![0u8; 32];
    rand::thread_rng().fill_bytes(&mut bytes);
    HashValue::from_vec(bytes).unwrap()
}

#[test]
fn test_empty_tree_root_is_placeholder() {
    let mut state = StateTree::new(MockStateNodeStore::new(), None);
    assert!(state.root_hash().equals(&placeholder_hash()));
    // any key reads back as absent, not as an error
    for _ in 0..8 {
        assert_eq!(state.get(&random_hash()).unwrap(), None);
    }
}

#[test]
fn test_read_back_last_written() {
    let mut state = StateTree::new(MockStateNodeStore::new(), None);
    let k1 = random_hash();
    let k2 = random_hash();
    state.put(k1.dup(), vec![1]);
    state.put(k1.dup(), vec![2]);
    state.put(k2.dup(), vec![3]);
    state.commit().unwrap();
    assert_eq!(state.get(&k1).unwrap(), Some(vec![2]));
    assert_eq!(state.get(&k2).unwrap(), Some(vec![3]));
    state.remove(&k1);
    assert_eq!(state.get(&k1).unwrap(), None);
    state.commit().unwrap();
    assert_eq!(state.get(&k1).unwrap(), None);
    assert_eq!(state.get(&k2).unwrap(), Some(vec![3]));
}

#[test]
fn test_idempotent_empty_commit() {
    let mut state = StateTree::new(MockStateNodeStore::new(), None);
    state.put(random_hash(), vec![9, 9]);
    let r1 = state.commit().unwrap();
    let r2 = state.commit().unwrap();
    assert!(r1.equals(&r2));
    let (_, cs) = state.change_sets();
    assert_eq!(cs.num_new_leaves, 1);
}

#[test]
fn test_change_set_accounting_fresh_keys() {
    // distinct top-level nibbles: every key a fresh leaf
    let mut state = StateTree::new(MockStateNodeStore::new(), None);
    let base = random_hash();
    let n: usize = 5;
    for i in 0..n {
        let k = update_nibble(&base, 0, i as u8);
        state.put(k, vec![i as u8]);
    }
    state.commit().unwrap();
    let (_, cs) = state.change_sets();
    assert_eq!(cs.num_new_leaves, n);
    assert_eq!(cs.num_stale_leaves, 0);
    // re-inserting an existing, already flushed key with a new value
    state.flush().unwrap();
    let k0 = update_nibble(&base, 0, 0);
    state.put(k0, vec![42]);
    state.commit().unwrap();
    let (_, cs2) = state.change_sets();
    assert_eq!(cs2.num_stale_leaves, 1);
    assert_eq!(cs2.num_new_leaves, 1);
}

#[test]
fn test_proof_round_trip_and_tamper() {
    let mut state = StateTree::new(MockStateNodeStore::new(), None);
    let base = random_hash();
    let ka = update_nibble(&base, 0, 3);
    let kb = update_nibble(&base, 0, 7);
    state.put(ka.dup(), vec![10, 20]);
    state.put(kb.dup(), vec![30]);
    let root = state.commit().unwrap();

    let (va, proof_a) = state.get_with_proof(&ka).unwrap();
    assert_eq!(va, Some(vec![10, 20]));
    assert!(proof_a.verify(&root, &ka, Some(&vec![10, 20])).is_ok());
    // a single flipped byte in the value must be rejected
    assert_eq!(
        proof_a.verify(&root, &ka, Some(&vec![11, 20])),
        Err(StateError::InvalidProof)
    );
    // the wrong root must be rejected
    assert_eq!(
        proof_a.verify(&placeholder_hash(), &ka, Some(&vec![10, 20])),
        Err(StateError::InvalidProof)
    );

    // absence proof for a key that is not there
    let kc = update_nibble(&base, 0, 12);
    let (vc, proof_c) = state.get_with_proof(&kc).unwrap();
    assert_eq!(vc, None);
    assert!(proof_c.verify(&root, &kc, None).is_ok());
}

#[test]
fn test_proof_length_mismatch() {
    let proof = SparseMerkleProof { leaf: None, siblings: vec![vec![placeholder_hash()]] };
    let key = random_hash();
    assert_eq!(
        proof.verify(&placeholder_hash(), &key, None),
        Err(StateError::ProofLengthMismatch)
    );
}

#[test]
fn test_example_two_keys_remove_one() {
    // keys A and B differing in their first nibble
    let base = random_hash();
    let a = update_nibble(&base, 0, 1);
    let b = update_nibble(&base, 0, 2);
    let mut state = StateTree::new(MockStateNodeStore::new(), None);
    state.put(a.dup(), vec![0xa]);
    state.put(b.dup(), vec![0xb]);
    let r1 = state.commit().unwrap();
    state.flush().unwrap();
    assert_eq!(state.get(&a).unwrap(), Some(vec![0xa]));
    assert_eq!(state.get(&b).unwrap(), Some(vec![0xb]));

    state.remove(&a);
    let r2 = state.commit().unwrap();
    state.flush().unwrap();
    assert!(!r1.equals(&r2));
    assert_eq!(state.get(&a).unwrap(), None);

    // the old root still answers with the old value
    let mut old_view = StateTree::new(state.store_snapshot(), Some(r1));
    assert_eq!(old_view.get(&a).unwrap(), Some(vec![0xa]));
}

#[test]
fn test_dump_after_k_commits() {
    let mut state = StateTree::new(MockStateNodeStore::new(), None);
    let mut keys = Vec::new();
    for i in 0..6u8 {
        let k = random_hash();
        state.put(k.dup(), vec![i]);
        keys.push(k);
    }
    state.commit().unwrap();
    let dumped = state.dump().unwrap();
    assert_eq!(dumped.len(), 6);
    for (i, k) in keys.iter().enumerate() {
        assert!(dumped.iter().any(|p| p.0.equals(k) && p.1 == vec![i as u8]));
    }
}

#[test]
fn test_commit_changes_root_for_new_data() {
    // if the digest ignored its input, these roots would all collide
    let mut state = StateTree::new(MockStateNodeStore::new(), None);
    let k = random_hash();
    state.put(k.dup(), vec![1]);
    let r1 = state.commit().unwrap();
    assert!(!r1.equals(&placeholder_hash()));
    assert_eq!(r1.to_vec().len(), 32);
    state.put(k.dup(), vec![2]);
    let r2 = state.commit().unwrap();
    assert!(!r1.equals(&r2));
}

#[test]
fn test_update_nibble_positions() {
    let zero = HashValue::from_vec(vec![0u8; 32]).unwrap();
    let k = update_nibble(&zero, 0, 0xf);
    assert_eq!(k.to_vec()[0], 0xf0);
    let k = update_nibble(&zero, 1, 0xf);
    assert_eq!(k.to_vec()[0], 0x0f);
    let k = update_nibble(&zero, 63, 0x3);
    assert_eq!(k.to_vec()[31], 0x03);
}

#[test]
fn test_block_header_extra() {
    let extra = BlockHeaderExtra::new([1, 2, 3, 4]);
    assert_eq!(extra.to_vec(), vec![1, 2, 3, 4]);
}

#[test]
fn test_uncle_summary_averages() {
    let s = UncleSummary::new(4, 10, 22);
    assert_eq!(s.avg, 2);
    assert_eq!(s.time_avg, 5);
    let z = UncleSummary::new(0, 10, 22);
    assert_eq!(z.avg, 0);
    assert_eq!(z.time_avg, 0);
    let e = EpochUncleSummary::new(7, UncleSummary::new(1, 1, 1), UncleSummary::new(2, 4, 6));
    assert_eq!(e.epoch, 7);
    assert_eq!(e.number_summary.uncles, 1);
    assert_eq!(e.epoch_summary.avg, 2);
}

#[test]
fn test_unflushed_root_invisible_to_fresh_store() {
    let mut state = StateTree::new(MockStateNodeStore::new(), None);
    let k = random_hash();
    state.put(k.dup(), vec![5]);
    let root = state.commit().unwrap();
    // committed but never flushed: a fresh handle cannot resolve it
    let mut other = StateTree::new(MockStateNodeStore::new(), Some(root));
    assert_eq!(other.get(&k), Err(StateError::MissingNode));
}

#[test]
fn test_empty_commit_on_unresolvable_root() {
    let mut state = StateTree::new(MockStateNodeStore::new(), None);
    let k = random_hash();
    state.put(k, vec![1]);
    let root = state.commit().unwrap();
    // nothing staged: commit is a no-op returning the unchanged root, even
    // though a fresh store cannot resolve it
    let mut view = StateTree::new(MockStateNodeStore::new(), Some(root.dup()));
    let r = view.commit().unwrap();
    assert!(r.equals(&root));
    assert!(view.root_hash().equals(&root));
}

#[test]
fn test_staged_writes_shadow_committed() {
    let mut state = StateTree::new(MockStateNodeStore::new(), None);
    let k = random_hash();
    state.put(k.dup(), vec![1]);
    state.commit().unwrap();
    // a staged tombstone shadows the committed value before commit
    state.remove(&k);
    assert_eq!(state.get(&k).unwrap(), None);
    // a staged overwrite shadows it as well
    state.put(k.dup(), vec![7]);
    assert_eq!(state.get(&k).unwrap(), Some(vec![7]));
    // the committed snapshot is untouched until commit
    let dumped = state.dump().unwrap();
    assert_eq!(dumped.len(), 1);
    assert_eq!(dumped[0].1, vec![1]);
}

#[test]
fn test_get_staged_value_needs_no_store() {
    let mut state = StateTree::new(MockStateNodeStore::new(), None);
    let root = {
        let k = random_hash();
        state.put(k, vec![1]);
        state.commit().unwrap()
    };
    // a view on an unresolvable root still answers for staged writes
    let mut view = StateTree::new(MockStateNodeStore::new(), Some(root));
    let k2 = random_hash();
    view.put(k2.dup(), vec![9]);
    assert_eq!(view.get(&k2).unwrap(), Some(vec![9]));
}
