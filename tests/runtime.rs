use rian::ids::{ActorId, ContextId};
use rian::runtime::{link_index, plan, ActorConfig, Config, ConfigError, Context, Scope};

fn config(contexts: &[u32], actors: &[u32]) -> Config {
    Config {
        root: Scope {
            name: None,
            children: Vec::new(),
            actors: actors
                .iter()
                .map(|&c| ActorConfig { typename: "A".to_string(), context: ContextId(c) })
                .collect(),
            imported_scopes: Vec::new(),
        },
        contexts: contexts
            .iter()
            .map(|&id| Context { id: ContextId(id), thread_affinity: None })
            .collect(),
    }
}

fn ids(v: &[u32]) -> Vec<ActorId> {
    v.iter().map(|&i| ActorId(i)).collect()
}

#[test]
fn plan_assigns_dense_ids_by_context() {
    let p = plan(&config(&[1, 2], &[2, 1, 2, 2, 1])).unwrap();
    assert_eq!(p.by_context.len(), 2);
    assert_eq!(p.by_context[0], ids(&[2, 5]));
    assert_eq!(p.by_context[1], ids(&[1, 3, 4]));
}

#[test]
fn plan_single_actor() {
    let p = plan(&config(&[1], &[1])).unwrap();
    assert_eq!(p.by_context, vec![ids(&[1])]);
}

#[test]
fn plan_context_without_actors() {
    let p = plan(&config(&[1, 2, 3], &[3])).unwrap();
    assert_eq!(p.by_context, vec![vec![], vec![], ids(&[1])]);
}

#[test]
fn plan_rejects_namespaces() {
    let mut c = config(&[1], &[1]);
    c.root.children.push("child".to_string());
    assert_eq!(plan(&c).err(), Some(ConfigError::Namespaces));
    let mut c = config(&[1], &[1]);
    c.root.imported_scopes.push("other".to_string());
    assert_eq!(plan(&c).err(), Some(ConfigError::Namespaces));
}

#[test]
fn plan_rejects_misnumbered_contexts() {
    assert_eq!(plan(&config(&[2], &[])).err(), Some(ConfigError::ContextIds));
    assert_eq!(plan(&config(&[1, 3], &[])).err(), Some(ConfigError::ContextIds));
    assert_eq!(plan(&config(&[0], &[])).err(), Some(ConfigError::ContextIds));
}

#[test]
fn plan_rejects_unknown_context() {
    assert_eq!(plan(&config(&[1, 2], &[1, 3])).err(), Some(ConfigError::UnknownContext));
    assert_eq!(plan(&config(&[1], &[0])).err(), Some(ConfigError::UnknownContext));
}

#[test]
fn link_indices_skip_own_context() {
    // context 2 of 3 has links to contexts 1 and 3, in that order
    assert_eq!(link_index(ContextId(2), ContextId(1)), 0);
    assert_eq!(link_index(ContextId(2), ContextId(3)), 1);
    assert_eq!(link_index(ContextId(1), ContextId(2)), 0);
    assert_eq!(link_index(ContextId(1), ContextId(3)), 1);
    assert_eq!(link_index(ContextId(3), ContextId(1)), 0);
    assert_eq!(link_index(ContextId(3), ContextId(2)), 1);
}

#[test]
fn id_conversions() {
    assert_eq!(ActorId::new(0), None);
    assert_eq!(ActorId::new(7), Some(ActorId(7)));
    assert_eq!(ActorId(7).as_index(), 6);
    assert_eq!(ContextId::new(0), None);
    assert_eq!(ContextId::from_u32(3), ContextId(3));
    assert_eq!(ContextId(3).as_index(), 2);
    assert_eq!(ContextId(3).as_u32(), 3);
}
