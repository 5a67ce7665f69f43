use crossbeam::epoch;
use ctrie::gcas::{gcas, gcas_read};
use ctrie::node::{Branch, CtrieNode, IndirectionNode, ListNode, MainNode, MainNodeKind, SingletonNode};
use ctrie::{entomb, resurrect, Generation};

fn empty_main(generation: Generation) -> MainNode<u64, u64> {
    MainNode::from_ctrie_node(CtrieNode::new(0, Vec::new(), generation))
}

// The generation-compare-and-swap commits when the root generation still
// matches, rejects the proposal in read-only mode, and rejects and
// restores when the generation moved on.
#[test]
fn gcas_commits_and_restores() {
    let guard = &epoch::pin();
    let g = Generation { id: 0 };
    let mut inode = IndirectionNode::new(empty_main(g), g);

    // matching generation: the proposal is published
    let list_main = MainNode::from_list_node(ListNode::new(1u64, 2u64));
    assert!(gcas(&mut inode, list_main, g, false, guard));
    assert!(matches!(gcas_read(&inode, guard).kind(), MainNodeKind::List(_)));

    // stale generation: the proposal is wrapped in a failed marker and
    // the previous value is restored
    let stale_root = Generation { id: 5 };
    assert!(!gcas(&mut inode, empty_main(g), stale_root, false, guard));
    assert!(matches!(gcas_read(&inode, guard).kind(), MainNodeKind::List(_)));

    // read-only mode: writes are rejected even with a matching generation
    assert!(!gcas(&mut inode, empty_main(g), g, true, guard));
    assert!(matches!(gcas_read(&inode, guard).kind(), MainNodeKind::List(_)));
}

#[test]
fn cas_and_load_main() {
    let g = Generation { id: 0 };
    let mut inode = IndirectionNode::new(empty_main(g), g);
    assert!(inode.cas_main(MainNode::from_list_node(ListNode::new(9u64, 9u64))));
    assert!(matches!(inode.load_main().kind(), MainNodeKind::List(_)));
    assert_eq!(inode.generation().id, 0);
}

#[test]
fn entomb_resurrect_roundtrip() {
    let g = Generation { id: 0 };
    let tomb_main = entomb(SingletonNode::new(3u64, 4u64));
    let inode = IndirectionNode::new(empty_main(g), g);
    match resurrect(inode, &tomb_main) {
        Branch::Singleton(s) => {
            assert_eq!(*s.key(), 3);
            assert_eq!(*s.value(), 4);
        },
        Branch::Indirection(_) => panic!("a tombed main node must revive its leaf"),
    }

    let live_main = empty_main(g);
    let inode = IndirectionNode::new(empty_main(g), g);
    match resurrect(inode, &live_main) {
        Branch::Singleton(_) => panic!("a live main node must keep its indirection node"),
        Branch::Indirection(i) => assert_eq!(i.generation().id, 0),
    }
}
