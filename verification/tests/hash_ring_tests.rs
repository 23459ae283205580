use vector_engine::hash_ring::{routing_key, Filter, HashRing, Inner};
use vector_engine::types::{OperationError, PointIdType};

#[test]
fn test_non_seq_keys() {
    let mut ring = Inner::fair(100);
    ring.add(5);
    ring.add(7);
    ring.add(8);
    ring.add(20);

    for i in 0..20 {
        match ring.get(&i) {
            None => panic!("Key {i} has no shard"),
            Some(x) => assert!([5, 7, 8, 20].contains(x)),
        }
    }
}

#[test]
fn test_repartition() {
    let mut ring = Inner::fair(100);

    ring.add(1);
    ring.add(2);
    ring.add(3);

    let mut pre_split = Vec::new();
    let mut post_split = Vec::new();

    for i in 0..100 {
        match ring.get(&i) {
            None => panic!("Key {i} has no shard"),
            Some(x) => pre_split.push(*x),
        }
    }

    ring.add(4);

    for i in 0..100 {
        match ring.get(&i) {
            None => panic!("Key {i} has no shard"),
            Some(x) => post_split.push(*x),
        }
    }

    assert_ne!(pre_split, post_split);

    for (x, y) in pre_split.iter().zip(post_split.iter()) {
        if x != y {
            assert_eq!(*y, 4);
        }
    }
}

#[test]
fn raw_ring_counts_one_entry_per_shard() {
    let mut ring = Inner::raw();
    assert!(ring.is_empty());
    assert_eq!(ring.len(), 0);
    assert_eq!(ring.get(&1), None);
    ring.add(11);
    ring.add(12);
    assert!(!ring.is_empty());
    assert_eq!(ring.len(), 2);
    assert!(ring.contains(11));
    assert!(!ring.contains(13));
    assert!(ring.remove(&11));
    assert!(!ring.remove(&11));
    assert_eq!(ring.len(), 1);
    for key in 0..50u64 {
        assert_eq!(ring.get(&key), Some(&12));
    }
}

#[test]
fn fair_ring_counts_shards_not_places() {
    let mut ring = Inner::fair(100);
    ring.add(1);
    ring.add(2);
    assert_eq!(ring.len(), 2);
    let nodes = ring.unique_nodes();
    assert_eq!(nodes.len(), 2);
    assert!(nodes.contains(&1) && nodes.contains(&2));
    assert!(ring.remove(&2));
    assert_eq!(ring.len(), 1);
    assert!(!ring.remove(&2));
    let copy = ring.copy();
    assert!(copy.same(&ring));
    let mut other = Inner::fair(100);
    other.add(3);
    assert!(!other.same(&ring));
}

#[test]
fn single_ring_gives_one_owner() {
    let mut ring = HashRing::single();
    assert!(ring.is_empty());
    assert!(!ring.is_resharding());
    assert!(ring.get(&7).to_vec().is_empty());
    ring.add(1);
    ring.add(2);
    for key in 0..100u64 {
        let owners = ring.get(&key).to_vec();
        assert_eq!(owners.len(), 1);
        assert!(owners[0] == 1 || owners[0] == 2);
        assert!(ring.is_in_shard(&key, owners[0]));
        assert_eq!(ring.get(&key).to_vec(), owners);
    }
}

#[test]
fn resharding_gives_old_and_new_owner_once() {
    let mut ring = HashRing::single();
    ring.add(1);
    ring.add(2);
    let mut old_owner = Vec::new();
    for key in 0..200u64 {
        old_owner.push(ring.get(&key).to_vec()[0]);
    }
    ring.add_resharding(3);
    assert!(ring.is_resharding());
    let mut moved = 0;
    for key in 0..200u64 {
        let owners = ring.get(&key).to_vec();
        assert!(owners.len() == 1 || owners.len() == 2);
        assert_eq!(owners[0], old_owner[key as usize]);
        if owners.len() == 2 {
            assert_eq!(owners[1], 3);
            assert!(ring.is_in_shard(&key, 3));
            moved += 1;
        } else {
            assert!(ring.is_in_shard(&key, owners[0]));
        }
    }
    assert!(moved > 0);
    let nodes = ring.unique_nodes();
    assert_eq!(nodes.len(), 3);
}

#[test]
fn commit_resharding_keeps_the_new_ring() {
    let mut ring = HashRing::single();
    ring.add(1);
    ring.add(2);
    assert!(!ring.commit_resharding());
    ring.add_resharding(3);
    let mut new_owner = Vec::new();
    for key in 0..200u64 {
        let owners = ring.get(&key).to_vec();
        new_owner.push(*owners.last().unwrap());
    }
    assert!(ring.commit_resharding());
    assert!(!ring.is_resharding());
    for key in 0..200u64 {
        assert_eq!(ring.get(&key).to_vec(), vec![new_owner[key as usize]]);
    }
    assert!(!ring.commit_resharding());
}

#[test]
fn remove_resharding_goes_back_to_the_old_ring() {
    let mut ring = HashRing::single();
    ring.add(1);
    ring.add(2);
    assert_eq!(ring.remove_resharding(3), Ok(false));
    let mut before = Vec::new();
    for key in 0..100u64 {
        before.push(ring.get(&key).to_vec());
    }
    ring.add_resharding(3);
    assert_eq!(ring.remove_resharding(4), Ok(false));
    assert!(ring.is_resharding());
    assert!(matches!(
        ring.remove_resharding(1),
        Err(OperationError::PreconditionFailed { .. })
    ));
    assert!(ring.is_resharding());
    assert_eq!(ring.remove_resharding(3), Ok(true));
    assert!(!ring.is_resharding());
    for key in 0..100u64 {
        assert_eq!(ring.get(&key).to_vec(), before[key as usize]);
    }
}

#[test]
fn add_during_resharding_is_idempotent() {
    let mut ring = HashRing::resharding(3);
    assert!(ring.is_resharding());
    ring.add(1);
    ring.add(1);
    ring.add(3);
    let nodes = ring.unique_nodes();
    assert_eq!(nodes.len(), 2);
    for key in 0..100u64 {
        let owners = ring.get(&key).to_vec();
        assert!(!owners.is_empty() && owners.len() <= 2);
        assert_eq!(owners[0], 1);
    }
}

#[test]
fn filter_checks_the_owner_of_a_point() {
    let mut ring = Inner::fair(100);
    ring.add(1);
    ring.add(2);
    let first = Filter::new(ring.copy(), 1);
    let second = Filter::new(ring.copy(), 2);
    let mut in_first = 0;
    for n in 0..100u64 {
        let id = PointIdType::NumId(n);
        assert_eq!(routing_key(id), n);
        assert!(first.check(id) != second.check(id));
        assert_eq!(first.check(id), ring.get(&n) == Some(&1));
        if first.check(id) {
            in_first += 1;
        }
    }
    assert!(in_first > 0 && in_first < 100);
    let uuid = PointIdType::Uuid((5u128 << 64) | 3);
    assert_eq!(routing_key(uuid), 6);
    let estimate = first.estimate_cardinality(1000);
    assert_eq!((estimate.min, estimate.exp, estimate.max), (0, 500, 1000));
    assert!(first.eq(&Filter::new(ring.copy(), 1)));
    assert!(!first.eq(&second));
}
