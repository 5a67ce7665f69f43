use crossbeam::epoch;
use ctrie::flag_and_position;
use ctrie::node::{ListNode, SingletonNode, TombNode};
use ctrie::Key;

#[test]
fn add_lookup_remove() {
    let list = ListNode::new('c', 3).add('b', 2).add('a', 1);

    let guard = &epoch::pin();

    assert_eq!(list.length(guard), 3);
    assert_eq!(list.lookup(&'a', guard), Some(&1));
    assert_eq!(list.lookup(&'b', guard), Some(&2));
    assert_eq!(list.lookup(&'c', guard), Some(&3));
    assert_eq!(list.lookup(&'d', guard), None);

    let (list, did_remove) = list.remove(&'d', guard);
    assert!(!did_remove);
    let list = list.unwrap();
    assert_eq!(list.length(guard), 3);

    let (list, did_remove) = list.remove(&'b', guard);
    assert!(did_remove);
    let list = list.unwrap();
    assert_eq!(list.length(guard), 2);

    let (list, did_remove) = list.remove(&'c', guard);
    assert!(did_remove);
    let list = list.unwrap();
    assert_eq!(list.length(guard), 1);

    let (list, did_remove) = list.remove(&'a', guard);
    assert!(did_remove);
    assert!(list.is_none());
}

#[test]
fn singleton_and_tomb() {
    let snode = SingletonNode::new(42u64, 7u64);
    assert_eq!(*snode.key(), 42);
    assert_eq!(*snode.value(), 7);
    let tomb = TombNode::new(snode);
    let revived = tomb.untombed();
    assert_eq!(*revived.key(), 42);
    assert_eq!(*revived.value(), 7);
}

#[test]
fn flag_and_position_values() {
    // slice 0 of a zero hash: the first flag, at position zero
    assert_eq!(flag_and_position(0, 0, 0b1011), (1, 0));
    // slice 2: the flag is bit 2, preceded by the two set low bits
    assert_eq!(flag_and_position(2, 0, 0b1011), (0b100, 2));
    // six bits are consumed per level: hash 64 has slice 1 at level 6
    assert_eq!(flag_and_position(64, 6, 0b1), (0b10, 1));
    // the highest slice reaches bit 63
    assert_eq!(flag_and_position(u64::MAX, 0, 0), (1u64 << 63, 0));
}

// The hash comes from the fxhash crate: it mixes its input rather than
// handing it back.
#[test]
fn hash_is_mixed() {
    assert_ne!(1u64.key_hash(), 1u64);
    assert_ne!(2u64.key_hash(), 2u64);
    assert_ne!(1u64.key_hash(), 2u64.key_hash());
}
