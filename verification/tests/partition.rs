use clustering::directory::Directory;
use clustering::forest::Forest;
use clustering::partition::Partition;

#[test]
fn directory_finds_what_was_entered() {
    let mut d = Directory::new();
    assert_eq!(d.len(), 0);
    assert_eq!(d.get(5), None);
    d.insert(50, 0);
    d.insert(10, 1);
    d.insert(30, 2);
    d.insert(u32::MAX, 3);
    d.insert(0, 4);
    assert_eq!(d.len(), 5);
    assert_eq!(d.get(50), Some(0));
    assert_eq!(d.get(10), Some(1));
    assert_eq!(d.get(30), Some(2));
    assert_eq!(d.get(u32::MAX), Some(3));
    assert_eq!(d.get(0), Some(4));
    assert_eq!(d.get(20), None);
    assert!(d.contains_key(30));
    assert!(!d.contains_key(31));
}

#[test]
fn directory_keeps_keys_in_ascending_order() {
    let mut d = Directory::new();
    for (slot, key) in [7u32, 3, 9, 1, 5].iter().enumerate() {
        d.insert(*key, slot);
    }
    let keys: Vec<u32> = (0..d.len()).map(|i| d.key_at(i)).collect();
    assert_eq!(keys, vec![1, 3, 5, 7, 9]);
}

#[test]
fn forest_unites_by_rank() {
    let mut f = Forest::new();
    for expected in 0..5 {
        assert_eq!(f.add(), expected);
    }
    assert_eq!(f.len(), 5);
    assert_eq!(f.set_count(), 5);
    assert_eq!(f.union(0, 1), Some((0, 1)));
    assert_eq!(f.union(1, 0), None);
    assert_eq!(f.union(2, 1), Some((0, 2)));
    assert_eq!(f.union(3, 4), Some((3, 4)));
    assert_eq!(f.union(4, 2), Some((3, 0)));
    assert_eq!(f.set_count(), 1);
    assert_eq!(f.rank_of(3), 3);
    assert_eq!(f.rank_of(0), 2);
    assert_eq!(f.root_at(1), 3);
    assert_eq!(f.parent_of(1), 0);
    assert_eq!(f.find(1), 3);
    assert_eq!(f.parent_of(1), 3);
    assert!(f.same_set(2, 4));
}

#[test]
fn forest_rank_can_be_raised() {
    let mut f = Forest::new();
    f.add();
    f.add();
    f.bump_rank(1);
    assert_eq!(f.rank_of(1), 2);
    // The root of higher rank wins, whichever comes first.
    assert_eq!(f.union(0, 1), Some((1, 0)));
    assert_eq!(f.rank_of(1), 2);
}

#[test]
fn partition_of_keys() {
    let mut p = Partition::new();
    assert_eq!(p.insert(40), 0);
    assert_eq!(p.insert(20), 1);
    assert_eq!(p.insert(30), 2);
    assert_eq!((p.len(), p.count()), (3, 3));
    assert!(p.contains_key(20));
    assert!(!p.contains_key(21));
    assert_eq!(p.slot_of(30), Some(2));
    assert_eq!(p.slot_of(31), None);
    assert_eq!(p.key_of(1), 20);
    assert_eq!(p.key_in_order(0), 20);
    assert_eq!(p.key_in_order(2), 40);
    assert_eq!(p.union(30, 20), Some((2, 1)));
    assert_eq!(p.union(20, 30), None);
    assert_eq!(p.count(), 2);
    assert_eq!(p.find(20), 30);
    assert_eq!(p.root_key(20), 30);
    assert_eq!(p.parent_key(20), 30);
    assert_eq!(p.rank_of(30), 2);
    assert!(p.same_set(20, 30));
    assert!(!p.same_set(20, 40));
    p.bump_rank(40);
    p.bump_rank(40);
    assert_eq!(p.union(20, 40), Some((0, 2)));
    assert_eq!(p.find(20), 40);
    assert_eq!(p.rank_of(40), 3);
    assert_eq!(p.union_slots(0, 1), None);
    assert_eq!(p.find_slot(1), 0);
    assert!(p.same_set_slots(1, 2));
}
