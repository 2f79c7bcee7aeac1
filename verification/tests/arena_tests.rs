use ferro::cortex::NodeArena;

#[derive(Clone, Copy, Debug, PartialEq)]
struct Node {
    id: usize,
    weight: f64,
    atp: f64,
}

fn finite(n: &Node) -> bool {
    n.weight.is_finite() && n.atp.is_finite()
}

#[test]
fn ids_are_issued_from_one_and_never_reused() {
    let mut arena = NodeArena::new();
    assert!(arena.is_empty());
    let a = arena.create_node(|id| Node { id, weight: 1.0, atp: 10.0 });
    let b = arena.create_node(|id| Node { id, weight: 2.0, atp: 10.0 });
    assert_eq!((a, b), (1, 2));
    assert_eq!(arena.remove_node(a).map(|n| n.id), Some(1));
    assert!(arena.get_node(a).is_none());
    let c = arena.create_node(|id| Node { id, weight: 3.0, atp: 10.0 });
    assert_eq!(c, 3);
    assert_eq!(arena.ids(), vec![2, 3]);
    assert_eq!(arena.len(), 2);
    assert_eq!(arena.get_node(c).map(|n| n.id), Some(3));
}

#[test]
fn rejected_update_is_rolled_back() {
    let mut arena = NodeArena::new();
    let id = arena.create_node(|id| Node { id, weight: 4.0, atp: 1.0 });
    let ok = arena.with_mut_node(id, |mut n| { n.weight /= 2.0; (n, n.weight) }, finite);
    assert_eq!(ok, Some(2.0));
    assert_eq!(arena.get_node(id).unwrap().weight, 2.0);
    let bad = arena.with_mut_node(id, |mut n| { n.atp = f64::NAN; n.weight = 9.0; (n, ()) }, finite);
    assert_eq!(bad, None);
    let node = arena.get_node(id).unwrap();
    assert_eq!(node.weight, 2.0);
    assert_eq!(node.atp, 1.0);
    assert_eq!(arena.with_mut_node(42, |n| (n, ()), finite), None);
}

#[test]
fn removing_a_missing_node_changes_nothing() {
    let mut arena: NodeArena<u8> = NodeArena::default();
    let id = arena.create_node(|_| 7);
    assert!(arena.remove_node(id + 1).is_none());
    assert_eq!(arena.ids(), vec![id]);
    assert_eq!(arena.get_node(id), Some(&7));
}

#[test]
fn a_thousand_nodes() {
    let mut arena = NodeArena::new();
    for _ in 0..1000 {
        arena.create_node(|id| id);
    }
    assert_eq!(arena.len(), 1000);
    let ids = arena.ids();
    assert_eq!(ids.first(), Some(&1));
    assert_eq!(ids.last(), Some(&1000));
}
