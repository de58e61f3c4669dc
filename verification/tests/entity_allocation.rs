use ecs::{Entities, Entity};

#[test]
fn entity_test_new() {
    let entity = Entity::from_raw(0xDEADBEEF);

    assert_eq!(entity.id(), 0xDEADBEEF);
}

#[test]
fn test_free() {
    let mut entities = Entities::new();

    let entity1 = entities.reserve_entity();
    let entity2 = entities.reserve_entity();

    assert_eq!(entity1.id(), 0);
    assert_eq!(entity2.id(), 1);

    entities.free(entity1);

    let entity3 = entities.reserve_entity();

    assert_eq!(entity3.id(), 0);
}

#[test]
fn test_range() {
    let mut entities = Entities::new();

    entities.set_range(10..256);

    let entity1 = entities.reserve_entity();

    assert_eq!(entity1.id(), 10);
}

#[test]
fn fresh_id_never_collides_with_recycled_id() {
    let mut entities = Entities::new();

    let a = entities.reserve_entity();
    let c = entities.reserve_entity();

    entities.free(a);

    let b = entities.reserve_entity();

    assert_eq!(b.id(), a.id());
    assert_ne!(b.id(), c.id());
}

#[test]
fn get_reports_only_recorded_locations() {
    let mut entities = Entities::new();

    let a = entities.reserve_entity();
    assert!(entities.get(a).is_none());
    assert!(entities.get(Entity::from_raw(500)).is_none());

    entities.free(a);
    assert!(entities.get(a).is_none());
}
