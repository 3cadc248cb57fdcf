use rand::RngCore;
use state_tree::hash::{placeholder_hash, update_nibble, HashValue};
use state_tree::state_tree::StateTree;
use state_tree::store::MockStateNodeStore;

fn random_hash() -> HashValue {
    let mut bytes = vec![0u8; 32];
    rand::thread_rng().fill_bytes(&mut bytes);
    HashValue::from_vec(bytes).unwrap()
}

fn assert_hash_eq(a: &HashValue, b: &HashValue) {
    assert!(a.equals(b), "hash values differ");
}

#[test]
pub fn test_put_blob() {
    let s = MockStateNodeStore::new();
    let mut state = StateTree::new(s, None);
    assert_hash_eq(&state.root_hash(), &placeholder_hash());

    let hash_value = random_hash();

    let account1 = update_nibble(&hash_value, 0, 1);
    let account1 = update_nibble(&account1, 2, 2);
    state.put(account1.dup(), vec![0, 0, 0]);

    assert_eq!(state.get(&account1).unwrap(), Some(vec![0, 0, 0]));
    assert_eq!(state.get(&update_nibble(&hash_value, 0, 8)).unwrap(), None);

    let new_root_hash = state.commit().unwrap();
    assert_hash_eq(&state.root_hash(), &new_root_hash);
    assert_eq!(state.get(&account1).unwrap(), Some(vec![0, 0, 0]));
    assert_eq!(state.get(&update_nibble(&hash_value, 0, 8)).unwrap(), None);

    let (root, updates) = state.change_sets();
    assert_hash_eq(&root, &new_root_hash);
    assert_eq!(updates.num_stale_leaves, 0);
    assert_eq!(updates.num_new_leaves, 1);
    assert_eq!(updates.node_batch.len(), 1);
    assert_eq!(updates.stale_node_index_batch.len(), 1);

    let account2 = update_nibble(&account1, 0, 2);
    state.put(account2.dup(), vec![0, 0, 0]);
    assert_eq!(state.get(&account2).unwrap(), Some(vec![0, 0, 0]));
    let new_root_hash = state.commit().unwrap();
    assert_hash_eq(&state.root_hash(), &new_root_hash);
    assert_eq!(state.get(&account2).unwrap(), Some(vec![0, 0, 0]));
    let (root, updates) = state.change_sets();
    assert_hash_eq(&root, &new_root_hash);
    assert_eq!(updates.num_stale_leaves, 0);
    assert_eq!(updates.num_new_leaves, 2);
    assert_eq!(updates.node_batch.len(), 3);
    assert_eq!(updates.stale_node_index_batch.len(), 1);

    // modify existed account
    state.put(account1.dup(), vec![1, 1, 1]);
    assert_eq!(state.get(&account1).unwrap(), Some(vec![1, 1, 1]));
    let new_root_hash = state.commit().unwrap();
    assert_hash_eq(&state.root_hash(), &new_root_hash);
    assert_eq!(state.get(&account1).unwrap(), Some(vec![1, 1, 1]));
    let (root, updates) = state.change_sets();
    assert_hash_eq(&root, &new_root_hash);
    assert_eq!(updates.num_stale_leaves, 0);
    assert_eq!(updates.num_new_leaves, 2);
    assert_eq!(updates.node_batch.len(), 3);
    assert_eq!(updates.stale_node_index_batch.len(), 1);

    let account3 = update_nibble(&account1, 2, 3);
    for (k, v) in vec![(account1.dup(), vec![1, 1, 0]), (account3.dup(), vec![0, 0, 0])] {
        state.put(k, v);
    }
    assert_eq!(state.get(&account1).unwrap(), Some(vec![1, 1, 0]));
    assert_eq!(state.get(&account2).unwrap(), Some(vec![0, 0, 0]));
    assert_eq!(state.get(&account3).unwrap(), Some(vec![0, 0, 0]));

    let new_root_hash = state.commit().unwrap();
    assert_hash_eq(&state.root_hash(), &new_root_hash);
    assert_eq!(state.get(&account1).unwrap(), Some(vec![1, 1, 0]));
    assert_eq!(state.get(&account2).unwrap(), Some(vec![0, 0, 0]));
    assert_eq!(state.get(&account3).unwrap(), Some(vec![0, 0, 0]));

    let (_, updates) = state.change_sets();
    assert_eq!(updates.num_stale_leaves, 0);
    assert_eq!(updates.num_new_leaves, 3);
    assert_eq!(updates.node_batch.len(), 6);
    assert_eq!(updates.stale_node_index_batch.len(), 1);
}

#[test]
pub fn test_state_proof() {
    let s = MockStateNodeStore::new();
    let mut state = StateTree::new(s, None);
    assert_hash_eq(&state.root_hash(), &placeholder_hash());

    let hash_value = random_hash();

    let account1 = update_nibble(&hash_value, 0, 1);
    // re-update to make sure account2 never equal to account1
    let account1 = update_nibble(&account1, 2, 1);

    let account2 = update_nibble(&account1, 2, 2);
    for (k, v) in vec![(account1.dup(), vec![0, 0, 0]), (account2.dup(), vec![1, 1, 1])] {
        state.put(k, v);
    }
    let (value, _) = state.get_with_proof(&account1).unwrap();
    assert!(value.is_none());
    let new_root_hash = state.commit().unwrap();
    let (value, proof) = state.get_with_proof(&account1).unwrap();
    assert!(value.is_some());
    assert_eq!(value.unwrap(), vec![0, 0, 0]);
    let expected_value = Some(vec![0u8, 0, 0]);
    assert!(proof.verify(&new_root_hash, &account1, expected_value.as_ref()).is_ok());

    state.remove(&account1);
    let new_root_hash = state.commit().unwrap();
    let (value, proof) = state.get_with_proof(&account1).unwrap();
    assert!(value.is_none());
    assert!(proof.verify(&new_root_hash, &account1, None).is_ok());
}

#[test]
pub fn test_state_commit() {
    let s = MockStateNodeStore::new();
    let mut state = StateTree::new(s, None);
    assert_hash_eq(&state.root_hash(), &placeholder_hash());

    let hash_value = random_hash();

    let account1 = update_nibble(&hash_value, 0, 1);
    let account1 = update_nibble(&account1, 2, 2);
    state.put(account1.dup(), vec![0, 0, 0]);
    let _new_root_hash = state.commit().unwrap();

    let account3 = update_nibble(&account1, 2, 3);
    for (k, v) in vec![(account1.dup(), vec![1, 1, 0]), (account3.dup(), vec![0, 0, 0])] {
        state.put(k, v);
    }
    let new_root_hash = state.commit().unwrap();

    state.flush().unwrap();
    assert_hash_eq(&state.root_hash(), &new_root_hash);
    assert_eq!(state.get(&account1).unwrap(), Some(vec![1, 1, 0]));
    assert_eq!(state.get(&account3).unwrap(), Some(vec![0, 0, 0]));
    assert_eq!(state.get(&update_nibble(&account1, 2, 10)).unwrap(), None);
}

#[test]
pub fn test_state_dump() {
    let s = MockStateNodeStore::new();
    let mut state = StateTree::new(s, None);
    let hash_value = random_hash();
    let value = vec![1u8, 2u8];
    state.put(hash_value, value);
    state.commit().unwrap();
    let state_set = state.dump().unwrap();
    assert_eq!(1, state_set.len());
}

#[test]
pub fn test_repeat_commit() {
    let s = MockStateNodeStore::new();
    let mut state = StateTree::new(s, None);
    let hash_value = random_hash();
    let value = vec![1u8, 2u8];
    state.put(hash_value.dup(), value.clone());
    state.commit().unwrap();

    let root_hash1 = state.root_hash();
    state.put(hash_value.dup(), value);
    state.commit().unwrap();
    let root_hash2 = state.root_hash();
    assert_hash_eq(&root_hash1, &root_hash2);
}

#[test]
pub fn test_state_storage_dump() {
    let storage = MockStateNodeStore::new();
    let mut state = StateTree::new(storage, None);
    let hash_value1 = random_hash();
    let value1 = vec![1u8, 2u8];
    state.put(hash_value1.dup(), value1.clone());
    let hash_value2 = random_hash();
    let value2 = vec![3u8, 4u8];
    state.put(hash_value2.dup(), value2.clone());
    state.commit().unwrap();
    let state_set = state.dump().unwrap();
    assert_eq!(2, state_set.len());
    let mut iter = state.dump_iter().unwrap();
    let mut kv1: Vec<(Vec<u8>, Vec<u8>)> = Vec::new();
    kv1.push((hash_value1.to_vec(), value1));
    kv1.push((hash_value2.to_vec(), value2));
    let v1 = iter.next().unwrap();
    let v2 = iter.next().unwrap();
    assert!(iter.next().is_none(), "iter next should none");
    let mut kv2: Vec<(Vec<u8>, Vec<u8>)> = Vec::new();
    kv2.push((v1.0.to_vec(), v1.1));
    kv2.push((v2.0.to_vec(), v2.1));
    kv1.sort();
    kv2.sort();
    assert_eq!(kv1, kv2);
}

#[test]
pub fn test_state_multi_commit_missing_node() {
    let storage = MockStateNodeStore::new();
    let mut state = StateTree::new(storage, None);
    let hash_value1 = random_hash();
    let value1 = vec![1u8, 2u8];
    state.put(hash_value1.dup(), value1);
    state.commit().unwrap();
    let root_hash1 = state.root_hash();
    let hash_value2 = random_hash();
    let value12 = vec![12u8, 2u8];
    let value2 = vec![3u8, 4u8];
    state.put(hash_value1.dup(), value12.clone());
    state.put(hash_value2.dup(), value2.clone());
    state.commit().unwrap();
    state.flush().unwrap();
    let root_hash2 = state.root_hash();
    let mut state1 = StateTree::new(state.store_snapshot(), Some(root_hash1));
    let result = state1.get(&hash_value1);
    assert!(result.is_err(), "Missing node at HashValue");

    let mut state2 = StateTree::new(state.store_snapshot(), Some(root_hash2));
    assert_eq!(state2.get(&hash_value1).unwrap(), Some(value12));
    assert_eq!(state2.get(&hash_value2).unwrap(), Some(value2));
}

#[test]
pub fn test_state_multi_commit_and_flush() {
    let storage = MockStateNodeStore::new();
    let mut state = StateTree::new(storage, None);
    let hash_value1 = random_hash();
    let value1 = vec![1u8, 2u8];
    state.put(hash_value1.dup(), value1.clone());
    state.commit().unwrap();
    state.flush().unwrap();
    let root_hash1 = state.root_hash();
    let hash_value2 = random_hash();
    let value12 = vec![12u8, 2u8];
    let value2 = vec![3u8, 4u8];
    state.put(hash_value1.dup(), value12.clone());
    state.put(hash_value2.dup(), value2.clone());
    state.commit().unwrap();
    state.flush().unwrap();
    let root_hash2 = state.root_hash();
    let mut state1 = StateTree::new(state.store_snapshot(), Some(root_hash1));
    assert_eq!(state1.get(&hash_value1).unwrap(), Some(value1));

    let mut state2 = StateTree::new(state.store_snapshot(), Some(root_hash2));
    assert_eq!(state2.get(&hash_value1).unwrap(), Some(value12));
    assert_eq!(state2.get(&hash_value2).unwrap(), Some(value2));
}
