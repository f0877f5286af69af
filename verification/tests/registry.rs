use pulse::TypeRegistry;
use std::any::TypeId;

#[test]
fn registry_lookup_of_an_unknown_type_finds_nothing_and_registers_nothing() {
    let registry = TypeRegistry::new();

    assert_eq!(registry.slot(&TypeId::of::<u32>()), None);
    assert_eq!(registry.len(), 0);
}

#[test]
fn registry_gives_each_new_type_the_next_slot() {
    let mut registry = TypeRegistry::new();

    assert_eq!(registry.register(TypeId::of::<u32>()), (0, true));
    assert_eq!(registry.register(TypeId::of::<bool>()), (1, true));
    assert_eq!(registry.register(TypeId::of::<String>()), (2, true));

    assert_eq!(registry.len(), 3);
    assert_eq!(registry.slot(&TypeId::of::<u32>()), Some(0));
    assert_eq!(registry.slot(&TypeId::of::<bool>()), Some(1));
    assert_eq!(registry.slot(&TypeId::of::<String>()), Some(2));
    assert_eq!(registry.slot(&TypeId::of::<u64>()), None);
}

#[test]
fn registry_keeps_the_slot_of_a_known_type() {
    let mut registry = TypeRegistry::new();
    registry.register(TypeId::of::<u32>());
    registry.register(TypeId::of::<bool>());

    assert_eq!(registry.register(TypeId::of::<u32>()), (0, false));
    assert_eq!(registry.register(TypeId::of::<bool>()), (1, false));

    assert_eq!(registry.len(), 2);
}
