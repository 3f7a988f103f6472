//! End-to-end replication scenarios: server pass to client apply.

use replicon::buffer::ReplicationBuffer;
use replicon::change_tick::Tick;
use replicon::client::{
    apply_buffered_updates, apply_change_message, apply_despawn, receive_mutate_message,
    BufferedUpdates,
};
use replicon::client_world::ClientWorld;
use replicon::collect::{replicate_pass, ClientUpdate};
use replicon::entity::Entity;
use replicon::entity_map::{ClientEntityMap, ClientMapping, ServerEntityMap};
use replicon::message_parse::{read_change_message, read_mutate_message};
use replicon::messages::ReplicationMessages;
use replicon::replicated_clients::{ClientBuffers, ClientId, ReplicatedClients};
use replicon::snapshot::{ComponentSnapshot, DespawnEntry, EntitySnapshot, RemovalEntry};
use replicon::tick::RepliconTick;
use replicon::visibility::VisibilityPolicy;

fn component(fns_id: u64, payload: Vec<u8>, added: u32, changed: u32) -> ComponentSnapshot {
    ComponentSnapshot { fns_id, payload, added: Tick::new(added), changed: Tick::new(changed) }
}

fn run_pass(
    clients: &mut ReplicatedClients,
    entity_map: &mut ClientEntityMap,
    entities: &Vec<EntitySnapshot>,
    removals: &Vec<RemovalEntry>,
    despawns: &Vec<DespawnEntry>,
    server_tick: u32,
    system_tick: u32,
) -> Vec<ClientUpdate> {
    let mut messages = ReplicationMessages::new();
    let mut serialized = ReplicationBuffer::new();
    let updates = replicate_pass(
        &mut messages,
        &mut serialized,
        clients,
        entity_map,
        entities,
        removals,
        despawns,
        RepliconTick::new(server_tick),
        Tick::new(system_tick),
        0,
    );
    for update in &updates {
        assert!(update.error.is_none(), "the pass should fit the message limits");
    }
    updates
}

struct TestClient {
    world: ClientWorld,
    map: ServerEntityMap,
    buffered: BufferedUpdates,
    init_tick: RepliconTick,
}

impl TestClient {
    fn new() -> Self {
        TestClient {
            world: ClientWorld::new(),
            map: ServerEntityMap::new(),
            buffered: BufferedUpdates::new(),
            init_tick: RepliconTick::new(0),
        }
    }

    fn apply(&mut self, update: &ClientUpdate) {
        if let Some(change) = &update.change {
            let data = read_change_message(change).expect("change message should parse");
            self.init_tick = apply_change_message(&mut self.world, &mut self.map, &data);
        }
        if let Some(mutate) = &update.mutate {
            let data = read_mutate_message(mutate).expect("mutate message should parse");
            receive_mutate_message(
                &mut self.world,
                &self.map,
                &mut self.buffered,
                self.init_tick,
                data,
            );
        }
        apply_buffered_updates(&mut self.world, &self.map, &mut self.buffered, self.init_tick);
    }
}

#[test]
fn spawn_replication() {
    let mut clients = ReplicatedClients::new(VisibilityPolicy::All, true);
    let mut buffers = ClientBuffers::new();
    let mut entity_map = ClientEntityMap::new();
    let id = ClientId::new(1);
    clients.add(&mut buffers, id);

    let empty_entity = Entity::new(1, 0);
    let server_entity = Entity::new(2, 0);
    let entities = vec![
        EntitySnapshot { entity: empty_entity, components: Vec::new() },
        EntitySnapshot { entity: server_entity, components: vec![component(1, vec![7], 1, 1)] },
    ];

    let updates = run_pass(&mut clients, &mut entity_map, &entities, &vec![], &vec![], 1, 1);
    let mut client = TestClient::new();
    client.apply(&updates[0]);

    let client_entity = client
        .map
        .to_client(server_entity)
        .expect("server entity should be mapped to a replicated entity on client");
    assert_eq!(
        client.map.to_server(client_entity),
        Some(server_entity),
        "replicated entity on client should be mapped to a server entity"
    );
    assert_eq!(client.world.len(), 1, "empty entity shouldn't be replicated");
}

#[test]
fn client_spawn_replication() {
    let mut clients = ReplicatedClients::new(VisibilityPolicy::All, true);
    let mut buffers = ClientBuffers::new();
    let mut entity_map = ClientEntityMap::new();
    let id = ClientId::new(1);
    clients.add(&mut buffers, id);

    let mut client = TestClient::new();
    let client_entity = client.world.spawn();
    let server_entity = Entity::new(8, 0);
    entity_map.insert(id, ClientMapping { server_entity, client_entity });

    let entities = vec![EntitySnapshot {
        entity: server_entity,
        components: vec![component(1, vec![9], 1, 1)],
    }];
    let updates = run_pass(&mut clients, &mut entity_map, &entities, &vec![], &vec![], 1, 1);
    client.apply(&updates[0]);

    assert_eq!(
        client.map.to_client(server_entity),
        Some(client_entity),
        "server entity should be mapped to a replicated entity on client"
    );
    assert_eq!(
        client.map.to_server(client_entity),
        Some(server_entity),
        "replicated entity on client should be mapped to a server entity"
    );
    assert!(
        client.world.contains(client_entity),
        "server should confirm replication of client entity"
    );
    assert_eq!(
        client.world.get_component(client_entity, 1),
        Some(&vec![9]),
        "component from server should be replicated"
    );
    assert_eq!(client.world.len(), 1, "new entity shouldn't be spawned on client");
}

#[test]
fn update_replication() {
    let mut clients = ReplicatedClients::new(VisibilityPolicy::All, true);
    let mut buffers = ClientBuffers::new();
    let mut entity_map = ClientEntityMap::new();
    let id = ClientId::new(1);
    clients.add(&mut buffers, id);

    const ENTITIES_COUNT: u32 = 300;
    let mut entities: Vec<EntitySnapshot> = Vec::new();
    for index in 0..ENTITIES_COUNT {
        entities.push(EntitySnapshot {
            entity: Entity::new(index, 0),
            components: vec![component(1, vec![0], 1, 1)],
        });
    }

    let updates = run_pass(&mut clients, &mut entity_map, &entities, &vec![], &vec![], 1, 1);
    let mut client = TestClient::new();
    client.apply(&updates[0]);
    assert_eq!(client.world.len(), ENTITIES_COUNT as usize);

    let mut mutated: Vec<EntitySnapshot> = Vec::new();
    for index in 0..ENTITIES_COUNT {
        mutated.push(EntitySnapshot {
            entity: Entity::new(index, 0),
            components: vec![component(1, vec![1], 1, 2)],
        });
    }
    let updates = run_pass(&mut clients, &mut entity_map, &mutated, &vec![], &vec![], 2, 2);
    client.apply(&updates[0]);

    for index in 0..ENTITIES_COUNT {
        let client_entity = client.map.to_client(Entity::new(index, 0)).unwrap();
        assert_eq!(client.world.get_component(client_entity, 1), Some(&vec![1]));
    }
}

#[test]
fn update_replication_buffering() {
    let mut clients = ReplicatedClients::new(VisibilityPolicy::All, true);
    let mut buffers = ClientBuffers::new();
    let mut entity_map = ClientEntityMap::new();
    let id = ClientId::new(1);
    clients.add(&mut buffers, id);

    let server_entity = Entity::new(3, 0);
    let entities = vec![EntitySnapshot {
        entity: server_entity,
        components: vec![component(1, vec![0], 1, 1)],
    }];
    let updates = run_pass(&mut clients, &mut entity_map, &entities, &vec![], &vec![], 1, 1);
    let mut client = TestClient::new();
    client.apply(&updates[0]);

    let mutated = vec![EntitySnapshot {
        entity: server_entity,
        components: vec![component(1, vec![1], 1, 2)],
    }];
    let updates = run_pass(&mut clients, &mut entity_map, &mutated, &vec![], &vec![], 2, 2);
    let mutate = updates[0].mutate.as_ref().expect("a pure value change travels unordered");
    let data = read_mutate_message(mutate).unwrap();

    // Roll the client back by one tick so the update has to wait.
    let rolled_back = RepliconTick::new(0);
    receive_mutate_message(
        &mut client.world,
        &client.map,
        &mut client.buffered,
        rolled_back,
        data,
    );
    let client_entity = client.map.to_client(server_entity).unwrap();
    assert_eq!(
        client.world.get_component(client_entity, 1),
        Some(&vec![0]),
        "client should buffer the update"
    );

    // Move the tick forward to let the buffered update apply.
    apply_buffered_updates(
        &mut client.world,
        &client.map,
        &mut client.buffered,
        client.init_tick,
    );
    assert_eq!(
        client.world.get_component(client_entity, 1),
        Some(&vec![1]),
        "buffered update should be applied"
    );
}

#[test]
fn removal_replication() {
    let mut clients = ReplicatedClients::new(VisibilityPolicy::All, true);
    let mut buffers = ClientBuffers::new();
    let mut entity_map = ClientEntityMap::new();
    let id = ClientId::new(1);
    clients.add(&mut buffers, id);

    let server_entity = Entity::new(5, 0);
    let entities = vec![EntitySnapshot {
        entity: server_entity,
        components: vec![component(1, vec![4], 1, 1)],
    }];
    let updates = run_pass(&mut clients, &mut entity_map, &entities, &vec![], &vec![], 1, 1);
    let mut client = TestClient::new();
    client.apply(&updates[0]);

    let client_entity = client.map.to_client(server_entity).unwrap();
    // A component of the client's own, outside replication.
    client.world.insert_component(client_entity, 99, vec![1]);

    let after_removal = vec![EntitySnapshot { entity: server_entity, components: Vec::new() }];
    let removals = vec![RemovalEntry {
        entity: server_entity,
        fn_ids: vec![1],
        tick: Tick::new(2),
    }];
    let updates = run_pass(
        &mut clients, &mut entity_map, &after_removal, &removals, &vec![], 2, 2);
    client.apply(&updates[0]);

    assert!(client.world.get_component(client_entity, 1).is_none());
    assert_eq!(client.world.get_component(client_entity, 99), Some(&vec![1]));
}

#[test]
fn acknowledged_removal_is_not_resent() {
    let mut clients = ReplicatedClients::new(VisibilityPolicy::All, true);
    let mut buffers = ClientBuffers::new();
    let mut entity_map = ClientEntityMap::new();
    let id = ClientId::new(1);
    clients.add(&mut buffers, id);

    let server_entity = Entity::new(5, 0);
    let entities = vec![EntitySnapshot {
        entity: server_entity,
        components: vec![component(1, vec![4], 1, 1)],
    }];
    let updates = run_pass(&mut clients, &mut entity_map, &entities, &vec![], &vec![], 1, 1);
    let mut client = TestClient::new();
    client.apply(&updates[0]);

    // A removal recorded at a tick the client's floor already covers is
    // owed nothing.
    let stale = vec![RemovalEntry { entity: server_entity, fn_ids: vec![1], tick: Tick::new(1) }];
    let updates = run_pass(&mut clients, &mut entity_map, &entities, &stale, &vec![], 2, 2);
    if let Some(change) = &updates[0].change {
        let data = read_change_message(change).unwrap();
        assert!(data.removals.is_empty());
    }

    // One recorded after the floor is sent.
    let owed = vec![RemovalEntry { entity: server_entity, fn_ids: vec![1], tick: Tick::new(2) }];
    let after_removal = vec![EntitySnapshot { entity: server_entity, components: Vec::new() }];
    let updates = run_pass(&mut clients, &mut entity_map, &after_removal, &owed, &vec![], 3, 3);
    let data = read_change_message(updates[0].change.as_ref().unwrap()).unwrap();
    assert_eq!(data.removals.len(), 1);
}

#[test]
fn despawn_replication() {
    let mut clients = ReplicatedClients::new(VisibilityPolicy::All, true);
    let mut buffers = ClientBuffers::new();
    let mut entity_map = ClientEntityMap::new();
    let id = ClientId::new(1);
    clients.add(&mut buffers, id);

    let parent = Entity::new(1, 0);
    let child = Entity::new(2, 0);
    let entities = vec![
        EntitySnapshot { entity: parent, components: vec![component(1, vec![1], 1, 1)] },
        EntitySnapshot { entity: child, components: vec![component(1, vec![2], 1, 1)] },
    ];
    let updates = run_pass(&mut clients, &mut entity_map, &entities, &vec![], &vec![], 1, 1);
    let mut client = TestClient::new();
    client.apply(&updates[0]);
    assert_eq!(client.world.len(), 2);

    let despawns = vec![
        DespawnEntry { entity: parent, tick: Tick::new(2) },
        DespawnEntry { entity: child, tick: Tick::new(2) },
    ];
    let updates = run_pass(&mut clients, &mut entity_map, &vec![], &vec![], &despawns, 2, 2);
    client.apply(&updates[0]);

    assert_eq!(client.world.len(), 0);
    assert!(client.map.is_empty());
}

#[test]
fn reset() {
    let mut clients = ReplicatedClients::new(VisibilityPolicy::All, true);
    let mut buffers = ClientBuffers::new();
    let id = ClientId::new(1);
    clients.add(&mut buffers, id);
    let entity = Entity::new(4, 0);
    clients.client_mut(id).set_change_tick(entity, Tick::new(9));

    clients.clear(&mut buffers);
    assert!(clients.is_empty());

    clients.add(&mut buffers, ClientId::new(2));
    assert_eq!(clients.len(), 1);
    let fresh = clients.client(ClientId::new(2));
    assert!(fresh.get_change_tick(entity).is_none());
    assert_eq!(fresh.init_tick().get(), 0);
}

#[test]
fn visibility_transitions() {
    let mut clients = ReplicatedClients::new(VisibilityPolicy::Blacklist, true);
    let mut buffers = ClientBuffers::new();
    let mut entity_map = ClientEntityMap::new();
    let hidden_from = ClientId::new(1);
    let observer = ClientId::new(2);
    clients.add(&mut buffers, hidden_from);
    clients.add(&mut buffers, observer);

    let server_entity = Entity::new(6, 0);
    let entities = vec![EntitySnapshot {
        entity: server_entity,
        components: vec![component(1, vec![3], 1, 1)],
    }];
    let updates = run_pass(&mut clients, &mut entity_map, &entities, &vec![], &vec![], 1, 1);
    let mut first = TestClient::new();
    let mut second = TestClient::new();
    first.apply(&updates[0]);
    second.apply(&updates[1]);
    assert_eq!(first.world.len(), 1);
    assert_eq!(second.world.len(), 1);

    // Hiding the entity from one client despawns it there and only there.
    clients.client_mut(hidden_from).visibility_mut().set_visibility(server_entity, false);
    let unchanged = vec![EntitySnapshot {
        entity: server_entity,
        components: vec![component(1, vec![3], 1, 1)],
    }];
    let updates = run_pass(&mut clients, &mut entity_map, &unchanged, &vec![], &vec![], 2, 2);
    let change = updates[0].change.as_ref().expect("losing visibility produces a message");
    let data = read_change_message(change).unwrap();
    assert_eq!(data.despawns, vec![server_entity]);
    assert!(data.changes.is_empty());
    assert!(data.removals.is_empty());
    assert!(updates[0].mutate.is_none());
    assert!(updates[1].change.is_none(), "the other client is unaffected");
    assert!(updates[1].mutate.is_none(), "the other client is unaffected");
    first.apply(&updates[0]);
    assert_eq!(first.world.len(), 0);
    assert_eq!(second.world.len(), 1);

    // Showing it again respawns it there with a full snapshot.
    clients.client_mut(hidden_from).visibility_mut().set_visibility(server_entity, true);
    let updates = run_pass(&mut clients, &mut entity_map, &unchanged, &vec![], &vec![], 3, 3);
    let change = updates[0].change.as_ref().expect("gaining visibility produces a snapshot");
    let data = read_change_message(change).unwrap();
    assert_eq!(data.changes.len(), 1);
    assert_eq!(data.changes[0].0, server_entity);
    assert_eq!(data.changes[0].1, vec![(1, vec![3])]);
    first.apply(&updates[0]);
    assert_eq!(first.world.len(), 1);
}

#[test]
fn duplicate_despawn_is_ignored() {
    let mut world = ClientWorld::new();
    let mut map = ServerEntityMap::new();
    let server_entity = Entity::new(1, 0);
    let client_entity = world.spawn();
    map.insert(server_entity, client_entity);

    apply_despawn(&mut world, &mut map, server_entity);
    assert_eq!(world.len(), 0);
    assert!(map.to_client(server_entity).is_none());

    // The duplicate notification finds nothing and changes nothing.
    apply_despawn(&mut world, &mut map, server_entity);
    assert_eq!(world.len(), 0);
    assert!(map.to_client(server_entity).is_none());
    assert!(map.is_empty());
}

#[test]
fn out_of_order_acknowledgment() {
    let mut clients = ReplicatedClients::new(VisibilityPolicy::All, true);
    let mut buffers = ClientBuffers::new();
    let id = ClientId::new(1);
    clients.add(&mut buffers, id);
    let entity = Entity::new(2, 0);

    let client = clients.client_mut(id);
    client.set_change_tick(entity, Tick::new(5));
    let early = client.register_update(Tick::new(10), 0, vec![entity]);
    let late = client.register_update(Tick::new(15), 0, vec![entity]);

    let now = Tick::new(20);
    client.acknowledge(&mut buffers, now, late);
    assert_eq!(client.get_change_tick(entity), Some(Tick::new(15)));

    // The older acknowledgment arrives afterwards and must not regress it.
    client.acknowledge(&mut buffers, now, early);
    assert_eq!(client.get_change_tick(entity), Some(Tick::new(15)));
}

#[test]
fn reconnect_gets_fresh_state() {
    let mut clients = ReplicatedClients::new(VisibilityPolicy::Blacklist, true);
    let mut buffers = ClientBuffers::new();
    let first = ClientId::new(1);
    clients.add(&mut buffers, first);
    let entity = Entity::new(3, 0);
    {
        let client = clients.client_mut(first);
        client.set_change_tick(entity, Tick::new(4));
        client.visibility_mut().set_visibility(entity, false);
        let _ = client.register_update(Tick::new(5), 0, vec![entity]);
        let _ = client.register_update(Tick::new(6), 0, vec![entity]);
        let _ = client.register_update(Tick::new(7), 0, vec![entity]);
    }

    clients.remove(&mut buffers, first);
    assert!(clients.is_empty());

    let second = ClientId::new(2);
    clients.add(&mut buffers, second);
    let client = clients.client_mut(second);
    assert!(client.get_change_tick(entity).is_none(), "no stale floor tick may leak");
    assert!(client.visibility().is_visible(entity), "no stale visibility may leak");
    let index = client.register_update(Tick::new(8), 0, vec![entity]);
    assert_eq!(index, 0, "the update index restarts for the new occupant");
}

#[test]
fn full_replication_cycle() {
    let mut clients = ReplicatedClients::new(VisibilityPolicy::All, true);
    let mut buffers = ClientBuffers::new();
    let mut entity_map = ClientEntityMap::new();
    let id = ClientId::new(1);
    clients.add(&mut buffers, id);
    let mut client = TestClient::new();

    // The entity spawns with one replicated component.
    let server_entity = Entity::new(1, 0);
    let spawned = vec![EntitySnapshot {
        entity: server_entity,
        components: vec![component(1, vec![42], 1, 1)],
    }];
    let updates = run_pass(&mut clients, &mut entity_map, &spawned, &vec![], &vec![], 1, 1);
    client.apply(&updates[0]);
    let client_entity = client.map.to_client(server_entity).unwrap();
    assert_eq!(client.map.to_server(client_entity), Some(server_entity));
    assert_eq!(client.world.len(), 1);
    assert_eq!(client.world.get_component(client_entity, 1), Some(&vec![42]));

    // The component is removed.
    let stripped = vec![EntitySnapshot { entity: server_entity, components: Vec::new() }];
    let removals = vec![RemovalEntry {
        entity: server_entity,
        fn_ids: vec![1],
        tick: Tick::new(2),
    }];
    let updates = run_pass(&mut clients, &mut entity_map, &stripped, &removals, &vec![], 2, 2);
    client.apply(&updates[0]);
    assert!(client.world.contains(client_entity));
    assert!(client.world.get_component(client_entity, 1).is_none());

    // The entity despawns.
    let despawns = vec![DespawnEntry { entity: server_entity, tick: Tick::new(3) }];
    let updates = run_pass(&mut clients, &mut entity_map, &vec![], &vec![], &despawns, 3, 3);
    client.apply(&updates[0]);
    assert!(!client.world.contains(client_entity));
    assert!(client.map.to_client(server_entity).is_none());
    assert!(client.map.to_server(client_entity).is_none());
    assert!(client.map.is_empty());
}

#[test]
fn pooled_messages_reset_between_passes() {
    let mut clients = ReplicatedClients::new(VisibilityPolicy::All, true);
    let mut buffers = ClientBuffers::new();
    let mut entity_map = ClientEntityMap::new();
    let id = ClientId::new(1);
    clients.add(&mut buffers, id);

    // One message pair and one arena serve every pass, reset in between.
    let mut messages = ReplicationMessages::new();
    let mut serialized = ReplicationBuffer::new();
    let mut client = TestClient::new();

    let first_entity = Entity::new(1, 0);
    let entities = vec![EntitySnapshot {
        entity: first_entity,
        components: vec![component(1, vec![1], 1, 1)],
    }];
    let updates = replicate_pass(
        &mut messages, &mut serialized, &mut clients, &mut entity_map,
        &entities, &vec![], &vec![], RepliconTick::new(1), Tick::new(1), 0,
    );
    client.apply(&updates[0]);

    let second_entity = Entity::new(2, 0);
    let entities = vec![
        EntitySnapshot { entity: first_entity, components: vec![component(1, vec![1], 1, 1)] },
        EntitySnapshot { entity: second_entity, components: vec![component(1, vec![2], 2, 2)] },
    ];
    let updates = replicate_pass(
        &mut messages, &mut serialized, &mut clients, &mut entity_map,
        &entities, &vec![], &vec![], RepliconTick::new(2), Tick::new(2), 0,
    );
    client.apply(&updates[0]);

    // Nothing of the first pass leaks into the second message.
    let data = read_change_message(updates[0].change.as_ref().unwrap()).unwrap();
    assert_eq!(data.changes.len(), 1);
    assert_eq!(data.changes[0].0, second_entity);
    assert_eq!(client.world.len(), 2);
}

#[test]
fn unknown_acknowledgment_is_ignored() {
    let mut clients = ReplicatedClients::new(VisibilityPolicy::All, true);
    let mut buffers = ClientBuffers::new();
    let id = ClientId::new(1);
    clients.add(&mut buffers, id);
    let entity = Entity::new(2, 0);

    let client = clients.client_mut(id);
    client.set_change_tick(entity, Tick::new(5));
    // No update was ever registered under this index.
    client.acknowledge(&mut buffers, Tick::new(20), 444);
    assert_eq!(client.get_change_tick(entity), Some(Tick::new(5)));
}

#[test]
fn stale_updates_are_evicted() {
    let mut clients = ReplicatedClients::new(VisibilityPolicy::All, true);
    let mut buffers = ClientBuffers::new();
    let id = ClientId::new(1);
    clients.add(&mut buffers, id);
    let entity = Entity::new(2, 0);

    let client = clients.client_mut(id);
    client.set_change_tick(entity, Tick::new(1));
    let stale = client.register_update(Tick::new(10), 5, vec![entity]);
    let live = client.register_update(Tick::new(15), 10, vec![entity]);

    client.remove_older_updates(&mut buffers, 8);

    // The evicted record's acknowledgment finds nothing.
    client.acknowledge(&mut buffers, Tick::new(20), stale);
    assert_eq!(client.get_change_tick(entity), Some(Tick::new(1)));
    // The retained record still acknowledges normally.
    client.acknowledge(&mut buffers, Tick::new(20), live);
    assert_eq!(client.get_change_tick(entity), Some(Tick::new(15)));
}

#[test]
fn premapping_is_consumed_once_sent() {
    let mut clients = ReplicatedClients::new(VisibilityPolicy::All, true);
    let mut buffers = ClientBuffers::new();
    let mut entity_map = ClientEntityMap::new();
    let id = ClientId::new(1);
    clients.add(&mut buffers, id);

    let mut client = TestClient::new();
    let client_entity = client.world.spawn();
    let server_entity = Entity::new(8, 0);
    entity_map.insert(id, ClientMapping { server_entity, client_entity });

    let entities = vec![EntitySnapshot {
        entity: server_entity,
        components: vec![component(1, vec![9], 1, 1)],
    }];
    let updates = run_pass(&mut clients, &mut entity_map, &entities, &vec![], &vec![], 1, 1);
    let data = read_change_message(updates[0].change.as_ref().unwrap()).unwrap();
    assert_eq!(data.mappings, vec![(server_entity, client_entity)]);

    // The next pass sends the mapping no more.
    let updates = run_pass(&mut clients, &mut entity_map, &entities, &vec![], &vec![], 2, 2);
    if let Some(change) = &updates[0].change {
        let data = read_change_message(change).unwrap();
        assert!(data.mappings.is_empty());
    }
}

#[test]
fn disconnect_clears_client_session() {
    let mut world = ClientWorld::new();
    let mut map = ServerEntityMap::new();
    let mut buffered = BufferedUpdates::new();
    let client_entity = world.spawn();
    map.insert(Entity::new(1, 0), client_entity);

    replicon::client::client_reset(&mut map, &mut buffered);
    assert!(map.is_empty());
    assert_eq!(buffered.len(), 0);
}

#[test]
fn mutation_folds_into_structural_change() {
    let mut clients = ReplicatedClients::new(VisibilityPolicy::All, true);
    let mut buffers = ClientBuffers::new();
    let mut entity_map = ClientEntityMap::new();
    let id = ClientId::new(1);
    clients.add(&mut buffers, id);

    let server_entity = Entity::new(1, 0);
    let spawned = vec![EntitySnapshot {
        entity: server_entity,
        components: vec![component(1, vec![0], 1, 1)],
    }];
    let updates = run_pass(&mut clients, &mut entity_map, &spawned, &vec![], &vec![], 1, 1);
    let mut client = TestClient::new();
    client.apply(&updates[0]);

    // The entity gains a component and mutates another in the same tick:
    // both must travel in the one ordered change message.
    let changed = vec![EntitySnapshot {
        entity: server_entity,
        components: vec![component(1, vec![9], 1, 2), component(2, vec![5], 2, 2)],
    }];
    let updates = run_pass(&mut clients, &mut entity_map, &changed, &vec![], &vec![], 2, 2);
    assert!(
        updates[0].mutate.is_none(),
        "nothing of the entity may travel on the unordered channel"
    );
    let change = updates[0].change.as_ref().unwrap();
    let data = read_change_message(change).unwrap();
    assert_eq!(data.changes.len(), 1);
    assert_eq!(data.changes[0].0, server_entity);
    client.apply(&updates[0]);
    let client_entity = client.map.to_client(server_entity).unwrap();
    assert_eq!(client.world.get_component(client_entity, 1), Some(&vec![9]));
    assert_eq!(client.world.get_component(client_entity, 2), Some(&vec![5]));
}
