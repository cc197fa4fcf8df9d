use rian::arena::Layout;
use rian::lookup::ActorType;
use rian::registry::{Registry, RegistryError};

fn layout(s: usize, a: usize) -> Layout {
    Layout::from_size_align(s, a).unwrap()
}

#[test]
fn register_and_find() {
    let mut r = Registry::new();
    assert_eq!(r.register_actor("A".to_string(), layout(8, 8)), Ok(ActorType(0)));
    assert_eq!(r.register_actor("B".to_string(), layout(4, 4)), Ok(ActorType(1)));
    assert_eq!(r.len(), 2);
    assert_eq!(r.by_name(&"B".to_string()), Some(ActorType(1)));
    assert_eq!(r.by_name(&"C".to_string()), None);
    assert_eq!(r.layout_of(ActorType(0)).size(), 8);
}

#[test]
fn duplicate_name_is_refused() {
    let mut r = Registry::new();
    assert!(r.register_actor("A".to_string(), layout(8, 8)).is_ok());
    assert_eq!(
        r.register_actor("A".to_string(), layout(1, 1)),
        Err(RegistryError::DuplicateName)
    );
    assert_eq!(r.len(), 1);
}

#[test]
fn resolve_names() {
    let mut r = Registry::new();
    r.register_actor("A".to_string(), layout(8, 8)).unwrap();
    r.register_actor("B".to_string(), layout(2, 2)).unwrap();
    let (types, layouts) = r.resolve(&["B".to_string(), "A".to_string(), "B".to_string()]).unwrap();
    assert_eq!(types, vec![ActorType(1), ActorType(0), ActorType(1)]);
    let sizes: Vec<usize> = layouts.iter().map(|l| l.size()).collect();
    assert_eq!(sizes, vec![2, 8, 2]);
    assert_eq!(
        r.resolve(&["A".to_string(), "X".to_string(), "Y".to_string()]).err(),
        Some(RegistryError::UnknownName(1))
    );
}
