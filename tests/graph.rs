use rian::graph::{has_cycles, DependenceRelation};
use rian::ids::ActorId;

fn cycles(t: &[(u32, u32)]) -> bool {
    let f = |a: u32| ActorId::new(a + 1).unwrap();
    let v: Vec<DependenceRelation> = t
        .iter()
        .map(|&(a, b)| DependenceRelation { from: f(a), to: f(b) })
        .collect();
    has_cycles(&v)
}

#[test]
fn test_2cycle() {
    assert!(cycles(&[(1, 2), (2, 1)]));
}

#[test]
fn diamond() {
    assert!(!cycles(&[(1, 2), (1, 3), (2, 4), (3, 4)]));
}

#[test]
fn test_3cycle_with_offshoot() {
    assert!(cycles(&[(1, 2), (2, 3), (3, 4), (3, 1)]));
}

#[test]
fn no_edges_no_cycle() {
    assert!(!cycles(&[]));
}

#[test]
fn self_loop_is_a_cycle() {
    assert!(cycles(&[(5, 5)]));
}

#[test]
fn long_chain_without_cycle() {
    let edges: Vec<(u32, u32)> = (0..200).map(|i| (i, i + 1)).collect();
    assert!(!cycles(&edges));
    let mut closed = edges.clone();
    closed.push((200, 0));
    assert!(cycles(&closed));
}

#[test]
fn large_ids() {
    let v = vec![
        DependenceRelation { from: ActorId(u32::MAX), to: ActorId(1) },
        DependenceRelation { from: ActorId(1), to: ActorId(u32::MAX) },
    ];
    assert!(has_cycles(&v));
    assert!(!has_cycles(&v[..1]));
}
