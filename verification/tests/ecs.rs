use ferrumc::ecs::Component;
use ferrumc::ecs::ComponentKind;
use ferrumc::ecs::ConnectionWrapper;
use ferrumc::ecs::EntityAllocator;
use ferrumc::ecs::KeepAlive;
use ferrumc::ecs::Player;
use ferrumc::ecs::World;
use ferrumc::error::Error;

#[test]
fn test_entity_creation() {
    let mut allocator = EntityAllocator::new();
    let e1 = allocator.allocate_entity();
    let e2 = allocator.allocate_entity();
    assert_ne!(e1, e2);
    assert_eq!(e1.id() + 1, e2.id());
}

#[test]
fn s3_entity_reuse() {
    let mut allocator = EntityAllocator::new();
    let e1 = allocator.allocate_entity();
    allocator.deallocate(&e1).unwrap();
    let e2 = allocator.allocate_entity();
    assert_eq!(e2.id(), e1.id());
    assert_eq!(e2.generation(), e1.generation() + 1);
    assert_eq!(
        allocator.deallocate(&e1),
        Err(Error::InvalidGeneration(e1.id()))
    );
}

#[test]
fn deallocate_out_of_bounds_is_entity_not_found() {
    let mut allocator = EntityAllocator::new();
    let e = allocator.allocate_entity();
    let stale = ferrumc::ecs::Entity::new(e.id() + 5, 0);
    assert_eq!(
        allocator.deallocate(&stale),
        Err(Error::EntityNotFound(e.id() + 5))
    );
    assert_eq!(allocator.total_entities(), 1);
}

#[test]
fn generation_strictly_increases_on_deallocate() {
    let mut allocator = EntityAllocator::new();
    let e1 = allocator.allocate_entity();
    assert_eq!(allocator.generation_of(e1.id()), Some(0));
    allocator.deallocate(&e1).unwrap();
    assert_eq!(allocator.generation_of(e1.id()), Some(1));
    let e2 = allocator.allocate_entity();
    allocator.deallocate(&e2).unwrap();
    assert_eq!(allocator.generation_of(e1.id()), Some(2));
}

#[test]
fn delete_entity_clears_all_columns() {
    let mut world = World::new();
    let b = world
        .create_entity()
        .with(Component::Player(Player {
            username: "alice".to_string(),
        }))
        .with(Component::KeepAlive(KeepAlive {
            data: 3,
            last_sent: 42,
        }));
    let e = b.build(world.get_component_storage_mut());
    assert!(world
        .get_component_storage()
        .has_component(ComponentKind::Player, e.id()));
    world.delete_entity(&e).unwrap();
    assert!(!world
        .get_component_storage()
        .has_component(ComponentKind::Player, e.id()));
    assert!(!world
        .get_component_storage()
        .has_component(ComponentKind::KeepAlive, e.id()));
    assert_eq!(world.delete_entity(&e), Err(Error::InvalidGeneration(e.id())));
}

#[test]
fn s6_query_correctness() {
    let mut world = World::new();
    let b = world
        .create_entity()
        .with(Component::Player(Player {
            username: "a".to_string(),
        }))
        .with(Component::KeepAlive(KeepAlive {
            data: 0,
            last_sent: 0,
        }));
    let e1 = b.build(world.get_component_storage_mut());
    let b = world.create_entity().with(Component::Player(Player {
        username: "b".to_string(),
    }));
    let _e2 = b.build(world.get_component_storage_mut());
    let b = world
        .create_entity()
        .with(Component::Player(Player {
            username: "c".to_string(),
        }))
        .with(Component::KeepAlive(KeepAlive {
            data: 0,
            last_sent: 0,
        }))
        .with(Component::ConnectionWrapper(ConnectionWrapper { conn_id: 9 }));
    let e3 = b.build(world.get_component_storage_mut());
    let ids = world.query(&[ComponentKind::Player, ComponentKind::KeepAlive]);
    assert_eq!(ids, vec![e1.id(), e3.id()]);
}

#[test]
fn duplicate_component_kind_overwrites() {
    let mut world = World::new();
    let b = world
        .create_entity()
        .with(Component::KeepAlive(KeepAlive {
            data: 1,
            last_sent: 1,
        }))
        .with(Component::KeepAlive(KeepAlive {
            data: 2,
            last_sent: 2,
        }));
    let e = b.build(world.get_component_storage_mut());
    let ka = world.get_component_storage().keep_alive_at(e.id()).unwrap();
    assert_eq!(ka.data, 2);
    assert_eq!(ka.last_sent, 2);
}

#[test]
fn failed_delete_leaves_store_untouched() {
    let mut world = World::new();
    let b = world.create_entity().with(Component::Player(Player {
        username: "first".to_string(),
    }));
    let e1 = b.build(world.get_component_storage_mut());
    world.delete_entity(&e1).unwrap();
    // The id is reused by a live entity with its own components.
    let b = world.create_entity().with(Component::KeepAlive(KeepAlive {
        data: 9,
        last_sent: 9,
    }));
    let e2 = b.build(world.get_component_storage_mut());
    assert_eq!(e2.id(), e1.id());
    // Deleting with the stale handle fails and wipes nothing.
    assert_eq!(world.delete_entity(&e1), Err(Error::InvalidGeneration(e1.id())));
    let ka = world.get_component_storage().keep_alive_at(e2.id()).unwrap();
    assert_eq!(ka.data, 9);
    // An out-of-bounds handle fails and wipes nothing either.
    let ghostly = ferrumc::ecs::Entity::new(e2.id() + 10, 0);
    assert_eq!(
        world.delete_entity(&ghostly),
        Err(Error::EntityNotFound(e2.id() + 10))
    );
    assert!(world
        .get_component_storage()
        .has_component(ComponentKind::KeepAlive, e2.id()));
}
