use rian::arena::Offset;
use rian::graph::DependenceRelation;
use rian::ids::{ActorId, ContextId};
use rian::lookup::{
    acyclic_local_key, all_keys, broadcast_group, ActorData, ActorTree, ActorType,
    InterfaceMetadata, Key, Loc, LookupError,
};

fn tree() -> ActorTree {
    let mut t = ActorTree::new();
    t.push_context(
        ContextId(1),
        &[(ActorId(1), ActorType(0), Offset(0)), (ActorId(3), ActorType(1), Offset(8))],
    );
    t.push_context(
        ContextId(2),
        &[(ActorId(2), ActorType(1), Offset(0)), (ActorId(4), ActorType(2), Offset(4))],
    );
    t
}

fn loc(c: u32, o: u32) -> Loc {
    Loc { context_id: ContextId(c), offset: Offset(o) }
}

#[test]
fn tree_keeps_partition_order() {
    let t = tree();
    let ids: Vec<u32> = t.actors.iter().map(|a| a.id.0).collect();
    assert_eq!(ids, vec![1, 3, 2, 4]);
    assert_eq!(
        t.actors[2],
        ActorData { id: ActorId(2), actor_type: ActorType(1), loc: loc(2, 0) }
    );
}

#[test]
fn lookup_by_type_in_tree_order() {
    let found = tree().lookup_by_type(ActorType(1));
    let got: Vec<(u32, Loc)> = found.iter().map(|(id, k)| (id.0, k.loc)).collect();
    assert_eq!(got, vec![(3, loc(1, 8)), (2, loc(2, 0))]);
    assert!(tree().lookup_by_type(ActorType(9)).is_empty());
}

#[test]
fn lookup_by_interface_carries_metadata() {
    let impls = [
        InterfaceMetadata { actor_type: ActorType(2), dyn_meta: 20u64 },
        InterfaceMetadata { actor_type: ActorType(0), dyn_meta: 10u64 },
        InterfaceMetadata { actor_type: ActorType(2), dyn_meta: 99u64 },
    ];
    let found = tree().lookup_by_interface(&impls);
    let got: Vec<(u32, Loc, u64)> = found.iter().map(|(id, k)| (id.0, k.loc, k.meta)).collect();
    assert_eq!(got, vec![(1, loc(1, 0), 10), (4, loc(2, 4), 20)]);
    let none: [InterfaceMetadata<u64>; 0] = [];
    assert!(tree().lookup_by_interface(&none).is_empty());
}

#[test]
fn all_keys_drops_ids() {
    let found = tree().lookup_by_type(ActorType(1));
    let keys = all_keys(&found);
    let locs: Vec<Loc> = keys.iter().map(|k| k.loc).collect();
    assert_eq!(locs, vec![loc(1, 8), loc(2, 0)]);
}

#[test]
fn broadcast_group_by_context() {
    let k = |c: u32, o: u32| Key { loc: loc(c, o), meta: o as u64 };
    let found = vec![
        (ActorId(1), k(2, 0)),
        (ActorId(2), k(1, 4)),
        (ActorId(3), k(2, 8)),
        (ActorId(4), k(1, 12)),
    ];
    let g = broadcast_group(&found);
    assert_eq!(g.by_context.len(), 2);
    assert_eq!(g.by_context[0].0, ContextId(2));
    assert_eq!(g.by_context[0].1, vec![(Offset(0), 0), (Offset(8), 8)]);
    assert_eq!(g.by_context[1].0, ContextId(1));
    assert_eq!(g.by_context[1].1, vec![(Offset(4), 4), (Offset(12), 12)]);
}

#[test]
fn broadcast_group_empty() {
    let found: Vec<(ActorId, Key<()>)> = Vec::new();
    assert!(broadcast_group(&found).by_context.is_empty());
}

#[test]
fn acyclic_local_key_checks() {
    let t = tree();
    let mut rels: Vec<DependenceRelation> = Vec::new();
    let none = t.lookup_by_type(ActorType(7));
    assert_eq!(
        acyclic_local_key(&none, ContextId(1), ActorId(1), &mut rels).err(),
        Some(LookupError::NotFound)
    );
    let two = t.lookup_by_type(ActorType(1));
    assert_eq!(
        acyclic_local_key(&two, ContextId(1), ActorId(1), &mut rels).err(),
        Some(LookupError::Ambiguous)
    );
    let other = t.lookup_by_type(ActorType(2));
    assert_eq!(
        acyclic_local_key(&other, ContextId(1), ActorId(1), &mut rels).err(),
        Some(LookupError::OtherContext)
    );
    let me = t.lookup_by_type(ActorType(0));
    assert_eq!(
        acyclic_local_key(&me, ContextId(1), ActorId(1), &mut rels).err(),
        Some(LookupError::SelfReference)
    );
    assert!(rels.is_empty());
    let key = acyclic_local_key(&me, ContextId(1), ActorId(3), &mut rels).unwrap();
    assert_eq!(key.offset, Offset(0));
    assert_eq!(rels, vec![DependenceRelation { from: ActorId(3), to: ActorId(1) }]);
}
