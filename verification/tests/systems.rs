use ferrumc::ecs::Component;
use ferrumc::ecs::ComponentKind;
use ferrumc::ecs::ConnectionWrapper;
use ferrumc::ecs::KeepAlive;
use ferrumc::ecs::Player;
use ferrumc::ecs::World;
use ferrumc::error::Error;
use ferrumc::systems::Action;
use ferrumc::systems::KeepAliveSystem;
use ferrumc::systems::System;

fn spawn_player(world: &mut World, name: &str, conn_id: u64, last_sent: u64) -> ferrumc::ecs::Entity {
    let b = world
        .create_entity()
        .with(Component::Player(Player {
            username: name.to_string(),
        }))
        .with(Component::KeepAlive(KeepAlive { data: 0, last_sent }))
        .with(Component::ConnectionWrapper(ConnectionWrapper { conn_id }));
    b.build(world.get_component_storage_mut())
}

#[test]
fn p6_keep_alive_data_strictly_increases() {
    let mut world = World::new();
    let e = spawn_player(&mut world, "alice", 7, 0);
    let acts = KeepAliveSystem::sender(&mut world, 15_000);
    assert_eq!(acts, vec![Action::SendKeepAlive { conn_id: 7, data: 1 }]);
    let ka = world.get_component_storage().keep_alive_at(e.id()).unwrap();
    assert_eq!(ka.data, 1);
    assert_eq!(ka.last_sent, 15_000);

    // Not due yet: nothing is sent, nothing moves.
    let acts = KeepAliveSystem::sender(&mut world, 16_000);
    assert!(acts.is_empty());
    let ka2 = world.get_component_storage().keep_alive_at(e.id()).unwrap();
    assert_eq!(ka2.data, 1);
    assert_eq!(ka2.last_sent, 15_000);

    // Due again: the counter strictly increases, the stamp advances.
    let acts = KeepAliveSystem::sender(&mut world, 30_000);
    assert_eq!(acts, vec![Action::SendKeepAlive { conn_id: 7, data: 2 }]);
    let ka3 = world.get_component_storage().keep_alive_at(e.id()).unwrap();
    assert!(ka3.data > ka2.data);
    assert!(ka3.last_sent >= ka2.last_sent);
}

#[test]
fn s5_keep_alive_timeout_reaps() {
    let mut world = World::new();
    // A connected Play entity whose stamp is frozen 31 s in the past.
    let e = spawn_player(&mut world, "bob", 3, 0);
    let acts = KeepAliveSystem::receiver(&mut world, 31_000);
    assert_eq!(acts, vec![Action::DropConnection { conn_id: 3 }]);
    // The entity is deleted: its components are gone and the handle is stale.
    assert!(world
        .query(&[ComponentKind::KeepAlive, ComponentKind::ConnectionWrapper])
        .is_empty());
    assert_eq!(world.delete_entity(&e), Err(Error::InvalidGeneration(e.id())));
}

#[test]
fn receiver_leaves_live_connections_alone() {
    let mut world = World::new();
    let e = spawn_player(&mut world, "carol", 4, 2_000);
    // 30 s exactly is not yet expired (the deadline is strict).
    let acts = KeepAliveSystem::receiver(&mut world, 32_000);
    assert!(acts.is_empty());
    assert!(world
        .get_component_storage()
        .has_component(ComponentKind::Player, e.id()));
    // One millisecond past the deadline it is reaped.
    let acts = KeepAliveSystem::receiver(&mut world, 32_001);
    assert_eq!(acts, vec![Action::DropConnection { conn_id: 4 }]);
}

#[test]
fn tick_runs_sender_and_receiver() {
    let mut world = World::new();
    spawn_player(&mut world, "dan", 5, 0);
    // A connection that never completed login: no Player component,
    // so the sender skips it and its stamp stays in the past.
    let b = world
        .create_entity()
        .with(Component::KeepAlive(KeepAlive { data: 0, last_sent: 0 }))
        .with(Component::ConnectionWrapper(ConnectionWrapper { conn_id: 6 }));
    b.build(world.get_component_storage_mut());
    let system = KeepAliveSystem;
    assert_eq!(system.name(), "KeepAliveSystem");
    // One tick at 31 s: dan is due a keep-alive (and freshly stamped,
    // so not expired); the silent connection is past the deadline.
    let acts = system.tick(&mut world, 31_000);
    assert_eq!(
        acts,
        vec![
            Action::SendKeepAlive { conn_id: 5, data: 1 },
            Action::DropConnection { conn_id: 6 },
        ]
    );
}
