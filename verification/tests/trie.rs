use crossbeam::epoch;
use ctrie::Ctrie;

#[test]
fn insert_lookup() {
    let mut ctrie = Ctrie::new();
    let guard = &epoch::pin();

    for i in (0..1000u64).map(|i| i * 2) {
        ctrie.insert(i, i * 3, guard);
    }

    for i in (0..1000u64).map(|i| i * 2) {
        assert_eq!(ctrie.lookup(&i, guard), Some(&(i * 3)));
        assert_eq!(ctrie.lookup(&(i + 1), guard), None);
    }
}

#[test]
fn empty_lookup() {
    let ctrie: Ctrie<u64, u64> = Ctrie::new();
    let guard = &epoch::pin();
    assert_eq!(ctrie.lookup(&0, guard), None);
    assert_eq!(ctrie.lookup(&12345, guard), None);
}

#[test]
fn insert_overwrite() {
    let mut ctrie = Ctrie::new();
    let guard = &epoch::pin();
    ctrie.insert(7u64, 1u64, guard);
    ctrie.insert(7u64, 2u64, guard);
    assert_eq!(ctrie.lookup(&7, guard), Some(&2));
}

#[test]
fn insert_remove() {
    let mut ctrie = Ctrie::new();
    let guard = &epoch::pin();
    ctrie.insert(1u64, 10u64, guard);
    ctrie.insert(2u64, 20u64, guard);
    assert_eq!(ctrie.remove(&1, guard), Some(10));
    assert_eq!(ctrie.lookup(&1, guard), None);
    assert_eq!(ctrie.lookup(&2, guard), Some(&20));
    assert_eq!(ctrie.remove(&1, guard), None);
    assert_eq!(ctrie.remove(&3, guard), None);
    assert_eq!(ctrie.remove(&2, guard), Some(20));
    assert_eq!(ctrie.lookup(&2, guard), None);
}

// Pair keys hash by their first component alone, so pairs sharing it
// collide on the full 64-bit hash and drive the trie into list nodes at
// the maximal depth.
#[test]
fn collision_list_operations() {
    let mut ctrie = Ctrie::new();
    let guard = &epoch::pin();
    ctrie.insert((1u64, 97u64), 1u64, guard);
    ctrie.insert((0u64, 98u64), 2u64, guard);
    ctrie.insert((1u64, 99u64), 3u64, guard);
    ctrie.insert((0u64, 100u64), 4u64, guard);

    assert_eq!(ctrie.lookup(&(1, 97), guard), Some(&1));
    assert_eq!(ctrie.lookup(&(0, 98), guard), Some(&2));
    assert_eq!(ctrie.lookup(&(1, 99), guard), Some(&3));
    assert_eq!(ctrie.lookup(&(0, 100), guard), Some(&4));

    assert_eq!(ctrie.remove(&(1, 99), guard), Some(3));
    assert_eq!(ctrie.lookup(&(1, 99), guard), None);
    assert_eq!(ctrie.lookup(&(1, 97), guard), Some(&1));
    assert_eq!(ctrie.lookup(&(0, 98), guard), Some(&2));
    assert_eq!(ctrie.lookup(&(0, 100), guard), Some(&4));

    assert_eq!(ctrie.remove(&(1, 97), guard), Some(1));
    assert_eq!(ctrie.remove(&(0, 98), guard), Some(2));
    assert_eq!(ctrie.remove(&(0, 100), guard), Some(4));
    assert_eq!(ctrie.lookup(&(1, 97), guard), None);
    assert_eq!(ctrie.lookup(&(0, 98), guard), None);
    assert_eq!(ctrie.lookup(&(0, 100), guard), None);
}

#[test]
fn collision_overwrite_in_list() {
    let mut ctrie = Ctrie::new();
    let guard = &epoch::pin();
    ctrie.insert((5u64, 1u64), 10u64, guard);
    ctrie.insert((5u64, 2u64), 20u64, guard);
    ctrie.insert((5u64, 1u64), 11u64, guard);
    assert_eq!(ctrie.lookup(&(5, 1), guard), Some(&11));
    assert_eq!(ctrie.lookup(&(5, 2), guard), Some(&20));
}

// Removing one of two fully colliding keys entombs the list and the
// parent path contracts back to a plain leaf; both entries stay
// reachable in the right states along the way.
#[test]
fn collision_entomb_contract() {
    let mut ctrie = Ctrie::new();
    let guard = &epoch::pin();
    ctrie.insert((7u64, 1u64), 100u64, guard);
    ctrie.insert((7u64, 2u64), 200u64, guard);
    assert_eq!(ctrie.remove(&(7, 2), guard), Some(200));
    assert_eq!(ctrie.lookup(&(7, 1), guard), Some(&100));
    assert_eq!(ctrie.lookup(&(7, 2), guard), None);
    assert_eq!(ctrie.remove(&(7, 1), guard), Some(100));
    assert_eq!(ctrie.lookup(&(7, 1), guard), None);
}

#[test]
fn snapshot_isolation() {
    let mut ctrie = Ctrie::new();
    let guard = &epoch::pin();
    for i in 0..100u64 {
        ctrie.insert(i, i, guard);
    }
    let snapshot = ctrie.snapshot(guard);
    ctrie.insert(50u64, 999u64, guard);
    assert_eq!(ctrie.lookup(&50, guard), Some(&999));
    assert_eq!(snapshot.lookup(&50, guard), Some(&50));
}

// Writing into the snapshot renews the stale-generation subtrees it
// descends into; the parent is unaffected.
#[test]
fn snapshot_write_renewal() {
    let mut ctrie = Ctrie::new();
    let guard = &epoch::pin();
    for i in 0..64u64 {
        ctrie.insert(i, i + 1, guard);
    }
    let mut snapshot = ctrie.snapshot(guard);
    for i in 0..64u64 {
        snapshot.insert(i, 0, guard);
    }
    snapshot.insert(1000u64, 7u64, guard);
    assert_eq!(snapshot.remove(&63, guard), Some(0));
    for i in 0..63u64 {
        assert_eq!(snapshot.lookup(&i, guard), Some(&0));
        assert_eq!(ctrie.lookup(&i, guard), Some(&(i + 1)));
    }
    assert_eq!(ctrie.lookup(&63, guard), Some(&64));
    assert_eq!(snapshot.lookup(&1000, guard), Some(&7));
    assert_eq!(ctrie.lookup(&1000, guard), None);
}

#[test]
fn readonly_snapshot_reads() {
    let mut ctrie = Ctrie::new();
    let guard = &epoch::pin();
    for i in 0..10u64 {
        ctrie.insert(i, i * i, guard);
    }
    let frozen = ctrie.readonly_snapshot(guard);
    ctrie.insert(3u64, 0u64, guard);
    for i in 0..10u64 {
        assert_eq!(frozen.lookup(&i, guard), Some(&(i * i)));
    }
    assert_eq!(ctrie.lookup(&3, guard), Some(&0));
}
