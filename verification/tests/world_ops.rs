use ecs::{EcsError, World};

/// Caller-chosen type-erased payload: the engine tells values apart only by
/// the `u64` type identifier supplied with each one.
#[derive(Debug, Clone, PartialEq)]
enum Component {
    Velocity(f32, f32),
    Rotation(f32),
    Label(String),
    Marker,
    A(usize),
}

const VELOCITY: u64 = 1;
const ROTATION: u64 = 2;
const LABEL: u64 = 3;
const MARKER: u64 = 4;
const A: u64 = 5;

#[test]
fn it_works() {
    let mut world: World<Component> = World::new();

    let components = (
        Component::Velocity(32.0, 7.5),
        Component::Rotation(90.0),
        Component::Label("Tag".to_string()),
    );

    let a = world
        .create_entity()
        .with(VELOCITY, Component::Velocity(10.9187, 9.1234))
        .with(ROTATION, components.1.clone())
        .build(&mut world)
        .unwrap();

    let b = world
        .create_entity()
        .with(VELOCITY, components.0.clone())
        .with(LABEL, components.2.clone())
        .with(ROTATION, components.1.clone())
        .build(&mut world)
        .unwrap();
    let c = world
        .create_entity()
        .with(VELOCITY, components.0.clone())
        .with(ROTATION, components.1.clone())
        .build(&mut world)
        .unwrap();

    println!("{:?}", world.get(a, VELOCITY));
    println!("{:?}", world.get(b, VELOCITY));
    println!("{:?}", world.get(c, LABEL));

    world
        .add_component(a, LABEL, Component::Label("Hello".into()))
        .unwrap();
    world.add_component(a, MARKER, Component::Marker).unwrap();

    println!("{world:#?}");
}

#[test]
fn get_components() {
    let mut world: World<Component> = World::new();

    world
        .create_entity()
        .with(VELOCITY, Component::Velocity(10.9, 0.2))
        .build(&mut world)
        .unwrap();
    world
        .create_entity()
        .with(VELOCITY, Component::Velocity(0.67, 12.3))
        .with(ROTATION, Component::Rotation(90.0))
        .build(&mut world)
        .unwrap();
    world
        .create_entity()
        .with(VELOCITY, Component::Velocity(0.67, 12.3))
        .with(ROTATION, Component::Rotation(45.0))
        .build(&mut world)
        .unwrap();
    world
        .create_entity()
        .with(VELOCITY, Component::Velocity(5.5, 8.9))
        .build(&mut world)
        .unwrap();

    let archetype = world.archetypes.get_by_index(0);

    println!("{:?}", archetype.has_component(VELOCITY));

    println!("{:#?}", world.query(VELOCITY));
    println!("{:#?}", world.query(ROTATION));
    println!("{:#?}", world.query(LABEL));

    if let Component::Rotation(angle) = world.query_single_mut(ROTATION) {
        *angle *= 0.2;
    }

    println!("{:#?}", world.query(ROTATION));
}

#[test]
fn query() {
    let mut world: World<Component> = World::new();

    world
        .create_entity()
        .with(A, Component::A(10))
        .build(&mut world)
        .unwrap();

    assert_eq!(world.query(A), [&Component::A(10)]);

    world
        .create_entity()
        .with(A, Component::A(21))
        .build(&mut world)
        .unwrap();
    world
        .create_entity()
        .with(A, Component::A(42))
        .build(&mut world)
        .unwrap();

    assert_eq!(
        world.query(A),
        [&Component::A(10), &Component::A(21), &Component::A(42)]
    );
}

#[test]
fn query_mut() {
    let mut world: World<Component> = World::new();

    let ea = world
        .create_entity()
        .with(A, Component::A(10))
        .build(&mut world)
        .unwrap();
    let el = world
        .create_entity()
        .with(LABEL, Component::Label("abc".into()))
        .build(&mut world)
        .unwrap();

    assert_eq!(world.query(A)[0], &Component::A(10));

    if let Some(Component::A(n)) = world.get_mut(ea, A) {
        *n += 5;
    }

    assert_eq!(world.query(A)[0], &Component::A(15));

    assert_eq!(world.query(LABEL)[0], &Component::Label("abc".into()));

    if let Some(Component::Label(s)) = world.get_mut(el, LABEL) {
        s.push_str("efg");
    }

    assert_eq!(world.query(LABEL)[0], &Component::Label("abcefg".into()));
}

#[test]
fn remove_entities() {
    let mut world: World<Component> = World::new();

    let a = world
        .create_entity()
        .with(LABEL, Component::Label("Steve".into()))
        .build(&mut world)
        .unwrap();
    let b = world
        .create_entity()
        .with(LABEL, Component::Label("Tag".into()))
        .build(&mut world)
        .unwrap();

    world.remove_entity(a);
    world.remove_entity(b);

    println!("{:?}", world.get(a, LABEL));
    assert!(world.get(a, LABEL).is_none());

    world
        .create_entity()
        .with(ROTATION, Component::Rotation(45.0))
        .build(&mut world)
        .unwrap();

    println!("{world:#?}");
}

#[test]
fn schema_canonicalization_interns_one_archetype() {
    let mut world: World<Component> = World::new();

    let xy = world.archetype_for_schema(&vec![VELOCITY, ROTATION]);
    let yx = world.archetype_for_schema(&vec![ROTATION, VELOCITY]);

    assert_eq!(xy, yx);
    assert_eq!(world.archetypes.len(), 1);
}

#[test]
fn append_keeps_columns_in_lockstep() {
    let mut world: World<Component> = World::new();

    let e = world
        .spawn(vec![
            (VELOCITY, Component::Velocity(1.0, 2.0)),
            (ROTATION, Component::Rotation(3.0)),
        ])
        .unwrap();

    let location = world.entities.get(e).unwrap();
    let archetype = world.archetypes.get_by_id(location.archetype());

    assert_eq!(archetype.rows(), 1);
    assert_eq!(archetype.get_component(VELOCITY).len(), 1);
    assert_eq!(archetype.get_component(ROTATION).len(), 1);
    assert_eq!(location.row(), 0);
    assert_eq!(world.get(e, VELOCITY), Some(&Component::Velocity(1.0, 2.0)));
    assert_eq!(world.get(e, ROTATION), Some(&Component::Rotation(3.0)));
}

#[test]
fn swap_removal_retargets_last_row() {
    let mut world: World<Component> = World::new();

    let e0 = world.spawn(vec![(A, Component::A(0))]).unwrap();
    let e1 = world.spawn(vec![(A, Component::A(1))]).unwrap();
    let e2 = world.spawn(vec![(A, Component::A(2))]).unwrap();

    let vacated_row = world.entities.get(e0).unwrap().row();
    assert_eq!(vacated_row, 0);
    assert_eq!(world.entities.get(e2).unwrap().row(), 2);

    world.remove_entity(e0);

    let location = world.entities.get(e1).unwrap();
    let archetype = world.archetypes.get_by_id(location.archetype());
    assert_eq!(archetype.rows(), 2);

    assert_eq!(world.get(e1, A), Some(&Component::A(1)));
    assert_eq!(world.get(e2, A), Some(&Component::A(2)));
    assert_eq!(world.entities.get(e2).unwrap().row(), vacated_row);
}

#[test]
fn add_component_round_trip() {
    let mut world: World<Component> = World::new();

    let e = world
        .spawn(vec![(VELOCITY, Component::Velocity(4.0, 5.0))])
        .unwrap();

    world
        .add_component(e, ROTATION, Component::Rotation(6.0))
        .unwrap();

    let location = world.entities.get(e).unwrap();
    let archetype = world.archetypes.get_by_id(location.archetype());
    assert!(archetype.has_component(VELOCITY));
    assert!(archetype.has_component(ROTATION));

    assert_eq!(world.get(e, VELOCITY), Some(&Component::Velocity(4.0, 5.0)));
    assert_eq!(world.get(e, ROTATION), Some(&Component::Rotation(6.0)));

    let velocities = world.query(VELOCITY);
    assert_eq!(velocities, [&Component::Velocity(4.0, 5.0)]);
}

#[test]
fn edge_cache_resolves_same_destination() {
    let mut world: World<Component> = World::new();

    let e1 = world.spawn(vec![(VELOCITY, Component::Velocity(1.0, 1.0))]).unwrap();
    let e2 = world.spawn(vec![(VELOCITY, Component::Velocity(2.0, 2.0))]).unwrap();

    assert_eq!(
        world.entities.get(e1).unwrap().archetype(),
        world.entities.get(e2).unwrap().archetype()
    );

    world.add_component(e1, MARKER, Component::Marker).unwrap();
    world.add_component(e2, MARKER, Component::Marker).unwrap();

    assert_eq!(
        world.entities.get(e1).unwrap().archetype(),
        world.entities.get(e2).unwrap().archetype()
    );
}

#[test]
fn remove_component_keeps_other_values() {
    let mut world: World<Component> = World::new();

    let e = world
        .spawn(vec![
            (VELOCITY, Component::Velocity(7.0, 8.0)),
            (ROTATION, Component::Rotation(9.0)),
        ])
        .unwrap();

    world.remove_component(e, ROTATION).unwrap();

    assert_eq!(world.get(e, ROTATION), None);
    assert_eq!(world.get(e, VELOCITY), Some(&Component::Velocity(7.0, 8.0)));

    world.remove_component(e, VELOCITY).unwrap();
    assert_eq!(world.get(e, VELOCITY), None);
    assert!(world.entities.get(e).is_some());
}

#[test]
fn structural_errors_are_reported() {
    let mut world: World<Component> = World::new();

    let dup = world.spawn(vec![(A, Component::A(1)), (A, Component::A(2))]);
    assert_eq!(dup, Err(EcsError::DuplicateComponentType));

    let e = world.spawn(vec![(A, Component::A(1))]).unwrap();
    let dead = world.remove_entity(e).unwrap();
    assert_eq!(dead.archetype().index(), 0);

    assert_eq!(
        world.add_component(e, MARKER, Component::Marker),
        Err(EcsError::EntityNotFound)
    );
    assert_eq!(
        world.remove_component(e, A),
        Err(EcsError::EntityNotFound)
    );

    let e2 = world.spawn(vec![(A, Component::A(3))]).unwrap();
    assert_eq!(
        world.add_component(e2, A, Component::A(4)),
        Err(EcsError::ComponentAlreadyPresent)
    );
    assert_eq!(
        world.remove_component(e2, MARKER),
        Err(EcsError::ComponentNotFound)
    );
    assert_eq!(world.get(e2, A), Some(&Component::A(3)));
}

#[test]
fn query_single_returns_first_match() {
    let mut world: World<Component> = World::new();

    world.spawn(vec![(A, Component::A(11))]).unwrap();
    world
        .spawn(vec![(A, Component::A(12)), (MARKER, Component::Marker)])
        .unwrap();

    assert_eq!(world.query_single(A), &Component::A(11));
    assert_eq!(world.query_single(MARKER), &Component::Marker);
}
