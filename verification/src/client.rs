//! Client-side receive and apply.
//!
//! Change messages arrive on an ordered reliable channel and are applied in
//! arrival order: mappings first, then despawns, removals and insertions,
//! so no component data ever refers to an entity the client does not know.
//! Mutate messages arrive unordered; one whose tick is ahead of the
//! client's init tick is buffered until the tick catches up, and one for an
//! entity the client has not seen yet is discarded, superseded by the next
//! mutation.

use vstd::prelude::*;
use crate::client_world::ClientWorld;
use crate::entity::Entity;
use crate::entity_map::ServerEntityMap;
use crate::message_parse::{ChangeMessageData, MutateMessageData};
use crate::tick::RepliconTick;

verus! {

/// Applies one received entity mapping: the client entity is registered as
/// live (it may be a predicted spawn) and becomes the one translation of
/// the server entity.
pub fn apply_mapping(
    world: &mut ClientWorld,
    map: &mut ServerEntityMap,
    server_entity: Entity,
    client_entity: Entity,
)
    requires
        old(world).wf(),
        old(map).wf(),
        client_entity.index < u32::MAX,
    ensures
        final(world).wf(),
        final(map).wf(),
        final(map).spec_to_client(server_entity) == Some(client_entity),
        final(map).spec_to_server(client_entity) == Some(server_entity),
        final(world).spec_entity(client_entity) is Some,
        forall|x: Entity| x != client_entity
            ==> final(world).spec_entity(x) == old(world).spec_entity(x),
        forall|x: Entity| x != server_entity && old(map).spec_to_client(x) != Some(client_entity)
            ==> final(map).spec_to_client(x) == old(map).spec_to_client(x),
        forall|y: Entity| y != client_entity && old(map).spec_to_server(y) != Some(server_entity)
            ==> final(map).spec_to_server(y) == old(map).spec_to_server(y),
{
    world.spawn_at(client_entity);
    map.insert(server_entity, client_entity);
}

/// Applies one received despawn.
///
/// The mapped client entity and both map directions are erased; a despawn
/// of an entity with no mapping, such as a duplicate despawn, finds
/// nothing and changes nothing.
pub fn apply_despawn(world: &mut ClientWorld, map: &mut ServerEntityMap, server_entity: Entity)
    requires
        old(world).wf(),
        old(map).wf(),
    ensures
        final(world).wf(),
        final(map).wf(),
        final(map).spec_to_client(server_entity) is None,
        match old(map).spec_to_client(server_entity) {
            Some(c) => {
                &&& final(world).spec_entity(c) is None
                &&& final(map).spec_to_server(c) is None
                &&& forall|x: Entity| x != c
                    ==> final(world).spec_entity(x) == old(world).spec_entity(x)
                &&& forall|x: Entity| x != server_entity
                    ==> final(map).spec_to_client(x) == old(map).spec_to_client(x)
            },
            None => {
                &&& *final(world) == *old(world)
                &&& *final(map) == *old(map)
            },
        },
{
    match map.to_client(server_entity) {
        Some(client_entity) => {
            world.despawn(client_entity);
            map.remove_by_server(server_entity);
        },
        None => {},
    }
}

/// Applies one entity's component removals. Without a mapping for the
/// entity there is nothing to remove and the entry is dropped.
pub fn apply_removals_entry(
    world: &mut ClientWorld,
    map: &ServerEntityMap,
    server_entity: Entity,
    fn_ids: &Vec<u64>,
)
    requires
        old(world).wf(),
        map.wf(),
    ensures
        final(world).wf(),
        match map.spec_to_client(server_entity) {
            Some(c) => {
                &&& forall|id: u64| fn_ids@.contains(id)
                    ==> final(world).spec_component(c, id) is None
                &&& forall|id: u64| !fn_ids@.contains(id)
                    ==> final(world).spec_component(c, id) == old(world).spec_component(c, id)
                &&& (final(world).spec_entity(c) is Some)
                    == (old(world).spec_entity(c) is Some)
                &&& forall|x: Entity| x != c
                    ==> final(world).spec_entity(x) == old(world).spec_entity(x)
            },
            None => *final(world) == *old(world),
        },
{
    let client_entity = match map.to_client(server_entity) {
        Some(c) => c,
        None => {
            return;
        },
    };
    let mut i: usize = 0;
    while i < fn_ids.len()
        invariant
            i <= fn_ids@.len(),
            world.wf(),
            forall|id: u64| fn_ids@.subrange(0, i as int).contains(id)
                ==> world.spec_component(client_entity, id) is None,
            forall|id: u64| !fn_ids@.subrange(0, i as int).contains(id)
                ==> world.spec_component(client_entity, id)
                    == old(world).spec_component(client_entity, id),
            (world.spec_entity(client_entity) is Some)
                == (old(world).spec_entity(client_entity) is Some),
            forall|x: Entity| x != client_entity
                ==> world.spec_entity(x) == old(world).spec_entity(x),
        decreases fn_ids@.len() - i,
    {
        let id = fn_ids[i];
        let ghost prefix = fn_ids@.subrange(0, i as int);
        world.remove_component(client_entity, id);
        proof {
            broadcast use vstd::seq_lib::lemma_seq_contains_after_push;
            assert(fn_ids@.subrange(0, i + 1) =~= prefix.push(id));
        }
        i = i + 1;
    }
    proof {
        assert(fn_ids@.subrange(0, fn_ids@.len() as int) =~= fn_ids@);
    }
}

/// Applies one entity's component insertions from a change message.
///
/// The entity is translated through the map, or spawned fresh and mapped
/// on first sight; every carried payload is then written to it, later
/// duplicates overriding earlier ones.
pub fn apply_change_entry(
    world: &mut ClientWorld,
    map: &mut ServerEntityMap,
    server_entity: Entity,
    components: &Vec<(u64, Vec<u8>)>,
)
    requires
        old(world).wf(),
        old(map).wf(),
        old(world).spec_next_index() < u32::MAX,
    ensures
        final(world).wf(),
        final(map).wf(),
        final(map).spec_to_client(server_entity) is Some,
        old(map).spec_to_client(server_entity) is Some
            ==> final(map).spec_to_client(server_entity)
                == old(map).spec_to_client(server_entity) && *final(map) == *old(map),
        // No other server entity gains a mapping here: at most the stale
        // pair of the entity now standing for `server_entity` is torn down.
        forall|x: Entity| x != server_entity
            ==> final(map).spec_to_client(x) == old(map).spec_to_client(x)
                || (final(map).spec_to_client(x) is None
                    && old(map).spec_to_client(x)
                        == Some(final(map).spec_to_client(server_entity).unwrap())),
        // A fresh mapping points at an entity that did not exist before.
        old(map).spec_to_client(server_entity) is None
            ==> old(world).spec_entity(
                final(map).spec_to_client(server_entity).unwrap()) is None,
        // Entities other than the one written stay untouched.
        forall|x: Entity| x != final(map).spec_to_client(server_entity).unwrap()
            ==> final(world).spec_entity(x) == old(world).spec_entity(x),
        // Identity consumption is bounded: one fresh spawn at most, none
        // when the entity was already mapped and live.
        old(map).spec_to_client(server_entity) is None
            ==> final(world).spec_next_index() <= old(world).spec_next_index() + 1,
        old(map).spec_to_client(server_entity) is Some
            && old(world).spec_entity(old(map).spec_to_client(server_entity).unwrap()) is Some
            ==> final(world).spec_next_index() == old(world).spec_next_index(),
        ({
            let c = final(map).spec_to_client(server_entity).unwrap();
            old(world).spec_entity(c) is Some || c.index < u32::MAX
                || old(map).spec_to_client(server_entity) is None ==> {
                &&& final(world).spec_entity(c) is Some
                &&& forall|i: int|
                    0 <= i < components@.len() && (forall|j: int|
                        i < j < components@.len()
                            ==> (#[trigger] components@[j]).0 != components@[i].0)
                        ==> final(world).spec_component(c, (#[trigger] components@[i]).0)
                            == Some(components@[i].1@)
                &&& forall|x: Entity| x != c
                    ==> final(world).spec_entity(x) == old(world).spec_entity(x)
            }
        }),
{
    let client_entity = match map.to_client(server_entity) {
        Some(c) => {
            if !world.contains(c) {
                if c.index < u32::MAX {
                    world.spawn_at(c);
                } else {
                    // The identity cannot be materialized; drop the entry.
                    return;
                }
            }
            c
        },
        None => {
            let c = world.spawn();
            map.insert(server_entity, c);
            c
        },
    };
    let ghost base = *world;
    proof {
        assert forall|x: Entity| x != server_entity implies
            map.spec_to_client(x) == old(map).spec_to_client(x)
                || (map.spec_to_client(x) is None
                    && old(map).spec_to_client(x) == Some(client_entity)) by {
            if map.spec_to_client(x) != old(map).spec_to_client(x) {
                assert(old(map).spec_to_client(x) == Some(client_entity));
                if map.spec_to_client(x) is Some {
                    assert(map.spec_to_client(x) == Some(client_entity));
                    assert(map.spec_to_server(client_entity) == Some(x));
                    assert(map.spec_to_server(client_entity) == Some(server_entity));
                    assert(false);
                }
            }
        }
    }
    let mut i: usize = 0;
    while i < components.len()
        invariant
            i <= components@.len(),
            world.wf(),
            world.spec_entity(client_entity) is Some,
            world.spec_next_index() == base.spec_next_index(),
            forall|k: int|
                0 <= k < i && (forall|j: int|
                    k < j < i ==> (#[trigger] components@[j]).0 != components@[k].0)
                    ==> world.spec_component(client_entity, (#[trigger] components@[k]).0)
                        == Some(components@[k].1@),
            forall|x: Entity| x != client_entity
                ==> world.spec_entity(x) == base.spec_entity(x),
        decreases components@.len() - i,
    {
        let (id, payload) = (components[i].0, clone_payload(&components[i].1));
        world.insert_component(client_entity, id, payload);
        i = i + 1;
    }
}

/// Copies one payload.
pub fn clone_payload(v: &Vec<u8>) -> (r: Vec<u8>)
    ensures
        r@ == v@,
{
    let mut out: Vec<u8> = Vec::new();
    let mut i: usize = 0;
    while i < v.len()
        invariant
            i <= v@.len(),
            out@ == v@.subrange(0, i as int),
        decreases v@.len() - i,
    {
        out.push(v[i]);
        i = i + 1;
        proof {
            assert(out@ =~= v@.subrange(0, i as int));
        }
    }
    proof {
        assert(out@ =~= v@);
    }
    out
}

/// Applies one entity's component mutations from a mutate message.
///
/// A mutation for an entity that the map does not know cannot refer to
/// anything on this client yet: it is dropped, never fatal, superseded by
/// the next mutation naturally.
pub fn apply_mutate_entry(
    world: &mut ClientWorld,
    map: &ServerEntityMap,
    server_entity: Entity,
    components: &Vec<(u64, Vec<u8>)>,
)
    requires
        old(world).wf(),
        map.wf(),
    ensures
        final(world).wf(),
        match map.spec_to_client(server_entity) {
            Some(c) => old(world).spec_entity(c) is Some ==> {
                &&& final(world).spec_entity(c) is Some
                &&& forall|i: int|
                    0 <= i < components@.len() && (forall|j: int|
                        i < j < components@.len()
                            ==> (#[trigger] components@[j]).0 != components@[i].0)
                        ==> final(world).spec_component(c, (#[trigger] components@[i]).0)
                            == Some(components@[i].1@)
                &&& forall|x: Entity| x != c
                    ==> final(world).spec_entity(x) == old(world).spec_entity(x)
            },
            None => *final(world) == *old(world),
        },
        map.spec_to_client(server_entity) is Some
            && old(world).spec_entity(map.spec_to_client(server_entity).unwrap()) is None
            ==> *final(world) == *old(world),
{
    let client_entity = match map.to_client(server_entity) {
        Some(c) => c,
        None => {
            return;
        },
    };
    if !world.contains(client_entity) {
        return;
    }
    let ghost base = *world;
    let mut i: usize = 0;
    while i < components.len()
        invariant
            i <= components@.len(),
            world.wf(),
            world.spec_entity(client_entity) is Some,
            forall|k: int|
                0 <= k < i && (forall|j: int|
                    k < j < i ==> (#[trigger] components@[j]).0 != components@[k].0)
                    ==> world.spec_component(client_entity, (#[trigger] components@[k]).0)
                        == Some(components@[k].1@),
            forall|x: Entity| x != client_entity
                ==> world.spec_entity(x) == base.spec_entity(x),
        decreases components@.len() - i,
    {
        let (id, payload) = (components[i].0, clone_payload(&components[i].1));
        world.insert_component(client_entity, id, payload);
        i = i + 1;
    }
}

/// Applies one whole change message in the server's emission order:
/// mappings, then despawns, then removals, then insertions, entry by
/// entry through [`apply_mapping`], [`apply_despawn`],
/// [`apply_removals_entry`] and [`apply_change_entry`]. Returns the
/// message's tick, which becomes the client's new init tick.
///
/// Beyond the per-entry contracts, the whole message guarantees: despawned
/// entities stay unmapped; a message of mappings alone installs every
/// mapping; a message of removals alone strips every named component from
/// every mapped entity; and a message of insertions alone, received with
/// an empty map, spawns and fills every carried entity.
pub fn apply_change_message(
    world: &mut ClientWorld,
    map: &mut ServerEntityMap,
    data: &ChangeMessageData,
) -> (r: RepliconTick)
    requires
        old(world).wf(),
        old(map).wf(),
        forall|i: int| 0 <= i < data.mappings@.len()
            ==> (#[trigger] data.mappings@[i]).1.index < u32::MAX,
    ensures
        final(world).wf(),
        final(map).wf(),
        r == data.tick,
        // A despawned entity stays gone: unless a later entry of the same
        // message names it again, nothing maps it afterwards.
        forall|i: int|
            0 <= i < data.despawns@.len() && (forall|j: int|
                0 <= j < data.changes@.len()
                    ==> (#[trigger] data.changes@[j]).0 != data.despawns@[i])
            ==> final(map).spec_to_client(#[trigger] data.despawns@[i]) is None,
        // In a message of mappings alone, every pair that no later pair
        // overrides is installed in both directions, its client entity
        // live.
        data.despawns@.len() == 0 && data.changes@.len() == 0
            ==> forall|k: int| #![trigger data.mappings@[k]] {
                &&& 0 <= k < data.mappings@.len()
                &&& forall|k2: int| k < k2 < data.mappings@.len()
                    ==> (#[trigger] data.mappings@[k2]).0 != data.mappings@[k].0
                        && data.mappings@[k2].1 != data.mappings@[k].1
            } ==> {
                &&& final(map).spec_to_client(data.mappings@[k].0)
                    == Some(data.mappings@[k].1)
                &&& final(map).spec_to_server(data.mappings@[k].1)
                    == Some(data.mappings@[k].0)
                &&& final(world).spec_entity(data.mappings@[k].1) is Some
            },
        // In a message of removals alone, every named component leaves its
        // mapped entity.
        data.mappings@.len() == 0 && data.despawns@.len() == 0 && data.changes@.len() == 0
            ==> forall|k: int, q: int| {
                &&& 0 <= k < data.removals@.len()
                &&& 0 <= q < (#[trigger] data.removals@[k]).1@.len()
                &&& old(map).spec_to_client(data.removals@[k].0) is Some
            } ==> final(world).spec_component(
                old(map).spec_to_client(data.removals@[k].0).unwrap(),
                #[trigger] data.removals@[k].1@[q],
            ) is None,
        // In a message of insertions alone, received with an empty map and
        // enough identity headroom, every entity that no later entry
        // overrides is spawned, mapped and filled with its last-occurrence
        // components.
        data.mappings@.len() == 0 && data.despawns@.len() == 0 && data.removals@.len() == 0
            && (forall|x: Entity| old(map).spec_to_client(x) is None)
            && old(world).spec_next_index() + data.changes@.len() <= u32::MAX
            ==> forall|k: int| #![trigger data.changes@[k]] {
                &&& 0 <= k < data.changes@.len()
                &&& forall|k2: int| k < k2 < data.changes@.len()
                    ==> (#[trigger] data.changes@[k2]).0 != data.changes@[k].0
            } ==> {
                &&& final(map).spec_to_client(data.changes@[k].0) is Some
                &&& final(world).spec_entity(
                    final(map).spec_to_client(data.changes@[k].0).unwrap()) is Some
                &&& forall|q: int|
                    0 <= q < data.changes@[k].1@.len() && (forall|j: int|
                        q < j < data.changes@[k].1@.len()
                            ==> (#[trigger] data.changes@[k].1@[j]).0
                                != data.changes@[k].1@[q].0)
                        ==> final(world).spec_component(
                            final(map).spec_to_client(data.changes@[k].0).unwrap(),
                            (#[trigger] data.changes@[k].1@[q]).0,
                        ) == Some(data.changes@[k].1@[q].1@)
            },
{
    let ghost no_d_c = data.despawns@.len() == 0 && data.changes@.len() == 0;
    let ghost removals_only = data.mappings@.len() == 0 && data.despawns@.len() == 0
        && data.changes@.len() == 0;
    let ghost changes_only = data.mappings@.len() == 0 && data.despawns@.len() == 0
        && data.removals@.len() == 0 && (forall|x: Entity| old(map).spec_to_client(x) is None)
        && old(world).spec_next_index() + data.changes@.len() <= u32::MAX;
    let mut i: usize = 0;
    while i < data.mappings.len()
        invariant
            world.wf(),
            map.wf(),
            forall|k: int| 0 <= k < data.mappings@.len()
                ==> (#[trigger] data.mappings@[k]).1.index < u32::MAX,
            data.mappings@.len() == 0 ==> *map == *old(map) && *world == *old(world),
            i <= data.mappings@.len(),
            map.wf(),
            forall|k: int| #![trigger data.mappings@[k]] {
                &&& 0 <= k < i
                &&& forall|k2: int| k < k2 < i
                    ==> (#[trigger] data.mappings@[k2]).0 != data.mappings@[k].0
                        && data.mappings@[k2].1 != data.mappings@[k].1
            } ==> {
                &&& map.spec_to_client(data.mappings@[k].0) == Some(data.mappings@[k].1)
                &&& map.spec_to_server(data.mappings@[k].1) == Some(data.mappings@[k].0)
                &&& world.spec_entity(data.mappings@[k].1) is Some
            },
        decreases data.mappings@.len() - i,
    {
        let (server_entity, client_entity) = data.mappings[i];
        let ghost pre_map = *map;
        let ghost pre_world = *world;
        apply_mapping(world, map, server_entity, client_entity);
        proof {
            assert forall|k: int| #![trigger data.mappings@[k]] {
                &&& 0 <= k < i + 1
                &&& forall|k2: int| k < k2 < i + 1
                    ==> (#[trigger] data.mappings@[k2]).0 != data.mappings@[k].0
                        && data.mappings@[k2].1 != data.mappings@[k].1
            } implies {
                &&& map.spec_to_client(data.mappings@[k].0) == Some(data.mappings@[k].1)
                &&& map.spec_to_server(data.mappings@[k].1) == Some(data.mappings@[k].0)
                &&& world.spec_entity(data.mappings@[k].1) is Some
            } by {
                if k < i {
                    let sk = data.mappings@[k].0;
                    let ck = data.mappings@[k].1;
                    assert(data.mappings@[i as int].0 != sk);
                    assert(data.mappings@[i as int].1 != ck);
                    assert(pre_map.spec_to_client(sk) == Some(ck));
                    assert(pre_map.spec_to_server(ck) == Some(sk));
                    assert(map.spec_to_client(sk) == Some(ck));
                    assert(map.spec_to_server(ck) == Some(sk));
                }
            }
        }
        i = i + 1;
    }
    proof {
        assert(mappings_installed(*map, *world, data.mappings@));
    }
    let mut i: usize = 0;
    while i < data.despawns.len()
        invariant
            world.wf(),
            map.wf(),
            i <= data.despawns@.len(),
            forall|k: int| 0 <= k < i
                ==> map.spec_to_client(#[trigger] data.despawns@[k]) is None,
            no_d_c == (data.despawns@.len() == 0 && data.changes@.len() == 0),
            removals_only == (data.mappings@.len() == 0 && data.despawns@.len() == 0
                && data.changes@.len() == 0),
            changes_only ==> data.despawns@.len() == 0,
            no_d_c ==> mappings_installed(*map, *world, data.mappings@),
            removals_only ==> *map == *old(map) && *world == *old(world),
            changes_only ==> *map == *old(map) && *world == *old(world),
        decreases data.despawns@.len() - i,
    {
        let ghost pre = *map;
        apply_despawn(world, map, data.despawns[i]);
        proof {
            assert forall|k: int| 0 <= k < i + 1 implies
                map.spec_to_client(#[trigger] data.despawns@[k]) is None by {
                if k < i && data.despawns@[k] != data.despawns@[i as int] {
                    match pre.spec_to_client(data.despawns@[i as int]) {
                        Some(_) => {
                            assert(map.spec_to_client(data.despawns@[k])
                                == pre.spec_to_client(data.despawns@[k]));
                        },
                        None => {},
                    }
                }
            }
        }
        i = i + 1;
    }
    let ghost map_before_removals = *map;
    let mut i: usize = 0;
    while i < data.removals.len()
        invariant
            world.wf(),
            map.wf(),
            i <= data.removals@.len(),
            *map == map_before_removals,
            no_d_c == (data.despawns@.len() == 0 && data.changes@.len() == 0),
            removals_only == (data.mappings@.len() == 0 && data.despawns@.len() == 0
                && data.changes@.len() == 0),
            changes_only ==> data.removals@.len() == 0,
            forall|k: int| 0 <= k < data.despawns@.len()
                ==> map.spec_to_client(#[trigger] data.despawns@[k]) is None,
            no_d_c ==> mappings_installed(*map, *world, data.mappings@),
            removals_only ==> *map == *old(map),
            removals_only ==> forall|k: int, q: int| {
                &&& 0 <= k < i
                &&& 0 <= q < (#[trigger] data.removals@[k]).1@.len()
                &&& old(map).spec_to_client(data.removals@[k].0) is Some
            } ==> world.spec_component(
                old(map).spec_to_client(data.removals@[k].0).unwrap(),
                #[trigger] data.removals@[k].1@[q],
            ) is None,
            changes_only ==> *map == *old(map) && *world == *old(world),
        decreases data.removals@.len() - i,
    {
        let entry = &data.removals[i];
        let ghost pre_world = *world;
        apply_removals_entry(world, map, entry.0, &entry.1);
        proof {
            if no_d_c {
                lemma_mappings_survive_removal(
                    *map, pre_world, *world, data.mappings@,
                    map.spec_to_client(data.removals@[i as int].0));
            }
            if removals_only {
                assert forall|k: int, q: int| {
                    &&& 0 <= k < i + 1
                    &&& 0 <= q < (#[trigger] data.removals@[k]).1@.len()
                    &&& old(map).spec_to_client(data.removals@[k].0) is Some
                } implies world.spec_component(
                    old(map).spec_to_client(data.removals@[k].0).unwrap(),
                    #[trigger] data.removals@[k].1@[q],
                ) is None by {
                    let ck = old(map).spec_to_client(data.removals@[k].0).unwrap();
                    let ci = map.spec_to_client(data.removals@[i as int].0);
                    if k < i {
                        if ci == Some(ck) {
                            if data.removals@[i as int].1@.contains(data.removals@[k].1@[q]) {
                            } else {
                                assert(world.spec_component(ck, data.removals@[k].1@[q])
                                    == pre_world.spec_component(ck, data.removals@[k].1@[q]));
                            }
                        } else {
                            match ci {
                                Some(c) => {
                                    assert(world.spec_entity(ck) == pre_world.spec_entity(ck));
                                },
                                None => {},
                            }
                        }
                    } else {
                        assert(data.removals@[k].1@.contains(data.removals@[k].1@[q]));
                    }
                }
            }
        }
        i = i + 1;
    }
    let mut i: usize = 0;
    while i < data.changes.len()
        invariant
            world.wf(),
            map.wf(),
            i <= data.changes@.len(),
            forall|k: int| 0 <= k < data.despawns@.len() && (forall|j: int|
                0 <= j < data.changes@.len()
                    ==> (#[trigger] data.changes@[j]).0 != data.despawns@[k])
                ==> map.spec_to_client(#[trigger] data.despawns@[k]) is None,
            no_d_c == (data.despawns@.len() == 0 && data.changes@.len() == 0),
            removals_only == (data.mappings@.len() == 0 && data.despawns@.len() == 0
                && data.changes@.len() == 0),
            changes_only ==> data.mappings@.len() == 0 && data.despawns@.len() == 0
                && data.removals@.len() == 0
                && old(world).spec_next_index() + data.changes@.len() <= u32::MAX,
            no_d_c ==> mappings_installed(*map, *world, data.mappings@),
            removals_only ==> forall|k: int, q: int| {
                &&& 0 <= k < data.removals@.len()
                &&& 0 <= q < (#[trigger] data.removals@[k]).1@.len()
                &&& old(map).spec_to_client(data.removals@[k].0) is Some
            } ==> world.spec_component(
                old(map).spec_to_client(data.removals@[k].0).unwrap(),
                #[trigger] data.removals@[k].1@[q],
            ) is None,
            changes_only ==> {
                &&& world.spec_next_index() <= old(world).spec_next_index() + i
                &&& forall|k: int| #![trigger data.changes@[k]] {
                    &&& 0 <= k < i
                    &&& forall|k2: int| k < k2 < i
                        ==> (#[trigger] data.changes@[k2]).0 != data.changes@[k].0
                } ==> {
                    &&& map.spec_to_client(data.changes@[k].0) is Some
                    &&& world.spec_entity(
                        map.spec_to_client(data.changes@[k].0).unwrap()) is Some
                    &&& forall|q: int|
                        0 <= q < data.changes@[k].1@.len() && (forall|j: int|
                            q < j < data.changes@[k].1@.len()
                                ==> (#[trigger] data.changes@[k].1@[j]).0
                                    != data.changes@[k].1@[q].0)
                            ==> world.spec_component(
                                map.spec_to_client(data.changes@[k].0).unwrap(),
                                (#[trigger] data.changes@[k].1@[q]).0,
                            ) == Some(data.changes@[k].1@[q].1@)
                }
                &&& forall|x: Entity| map.spec_to_client(x) is Some
                    ==> world.spec_entity(map.spec_to_client(x).unwrap()) is Some
            },
        decreases data.changes@.len() - i,
    {
        let entry = &data.changes[i];
        if world.index_headroom() {
            let ghost pre_map = *map;
            let ghost pre_world = *world;
            apply_change_entry(world, map, entry.0, &entry.1);
            proof {
                assert forall|k: int|
                    0 <= k < data.despawns@.len() && (forall|j: int|
                        0 <= j < data.changes@.len()
                            ==> (#[trigger] data.changes@[j]).0 != data.despawns@[k])
                    implies map.spec_to_client(#[trigger] data.despawns@[k]) is None by {
                    assert(data.changes@[i as int].0 != data.despawns@[k]);
                    assert(map.spec_to_client(data.despawns@[k])
                        == pre_map.spec_to_client(data.despawns@[k])
                        || map.spec_to_client(data.despawns@[k]) is None);
                }
                if changes_only {
                    lemma_changes_only_step(
                        pre_map, *map, pre_world, *world, data.changes@, i as int);
                }
            }
        } else {
            proof {
                if changes_only {
                    assert(world.spec_next_index() < u32::MAX);
                    assert(false);
                }
            }
        }
        i = i + 1;
    }
    data.tick
}

/// Every pair of the list that no later pair overrides is installed in
/// both directions, with a live client entity.
pub open spec fn mappings_installed(
    map: ServerEntityMap,
    world: ClientWorld,
    mappings: Seq<(Entity, Entity)>,
) -> bool {
    forall|k: int| #![trigger mappings[k]] {
        &&& 0 <= k < mappings.len()
        &&& forall|k2: int| k < k2 < mappings.len()
            ==> (#[trigger] mappings[k2]).0 != mappings[k].0
                && mappings[k2].1 != mappings[k].1
    } ==> {
        &&& map.spec_to_client(mappings[k].0) == Some(mappings[k].1)
        &&& map.spec_to_server(mappings[k].1) == Some(mappings[k].0)
        &&& world.spec_entity(mappings[k].1) is Some
    }
}

/// Installed mappings survive a removals entry: the map is untouched and
/// only components of the removal's target change, never liveness.
proof fn lemma_mappings_survive_removal(
    map: ServerEntityMap,
    pre_world: ClientWorld,
    world: ClientWorld,
    mappings: Seq<(Entity, Entity)>,
    target: Option<Entity>,
)
    requires
        mappings_installed(map, pre_world, mappings),
        match target {
            Some(c) => {
                &&& (world.spec_entity(c) is Some) == (pre_world.spec_entity(c) is Some)
                &&& forall|x: Entity| x != c
                    ==> world.spec_entity(x) == pre_world.spec_entity(x)
            },
            None => world == pre_world,
        },
    ensures
        mappings_installed(map, world, mappings),
{
    assert forall|k: int| #![trigger mappings[k]] {
        &&& 0 <= k < mappings.len()
        &&& forall|k2: int| k < k2 < mappings.len()
            ==> (#[trigger] mappings[k2]).0 != mappings[k].0
                && mappings[k2].1 != mappings[k].1
    } implies {
        &&& map.spec_to_client(mappings[k].0) == Some(mappings[k].1)
        &&& map.spec_to_server(mappings[k].1) == Some(mappings[k].0)
        &&& world.spec_entity(mappings[k].1) is Some
    } by {
        assert(pre_world.spec_entity(mappings[k].1) is Some);
        match target {
            Some(c) => {
                if mappings[k].1 != c {
                    assert(world.spec_entity(mappings[k].1)
                        == pre_world.spec_entity(mappings[k].1));
                }
            },
            None => {},
        }
    }
}

/// One step of an insertions-only message received with an empty map: the
/// processed prefix's guarantees carry over entry `i`.
proof fn lemma_changes_only_step(
    pre_map: ServerEntityMap,
    map: ServerEntityMap,
    pre_world: ClientWorld,
    world: ClientWorld,
    changes: Seq<(Entity, Vec<(u64, Vec<u8>)>)>,
    i: int,
)
    requires
        0 <= i < changes.len(),
        pre_map.wf(),
        map.wf(),
        pre_world.wf(),
        world.wf(),
        // every pre-existing image is live
        forall|x: Entity| pre_map.spec_to_client(x) is Some
            ==> pre_world.spec_entity(pre_map.spec_to_client(x).unwrap()) is Some,
        // prefix guarantees before the step
        changes_only_prefix(pre_map, pre_world, changes, i),
        // the per-entry contract of the step, on entry i
        map.spec_to_client(changes[i].0) is Some,
        pre_map.spec_to_client(changes[i].0) is Some
            ==> map.spec_to_client(changes[i].0) == pre_map.spec_to_client(changes[i].0)
                && map == pre_map,
        forall|x: Entity| x != changes[i].0
            ==> map.spec_to_client(x) == pre_map.spec_to_client(x)
                || (map.spec_to_client(x) is None
                    && pre_map.spec_to_client(x)
                        == Some(map.spec_to_client(changes[i].0).unwrap())),
        pre_map.spec_to_client(changes[i].0) is None
            ==> pre_world.spec_entity(map.spec_to_client(changes[i].0).unwrap()) is None,
        ({
            let c = map.spec_to_client(changes[i].0).unwrap();
            pre_world.spec_entity(c) is Some || c.index < u32::MAX
                || pre_map.spec_to_client(changes[i].0) is None ==> {
                &&& world.spec_entity(c) is Some
                &&& forall|q: int|
                    0 <= q < changes[i].1@.len() && (forall|j: int|
                        q < j < changes[i].1@.len()
                            ==> (#[trigger] changes[i].1@[j]).0 != changes[i].1@[q].0)
                        ==> world.spec_component(c, (#[trigger] changes[i].1@[q]).0)
                            == Some(changes[i].1@[q].1@)
                &&& forall|x: Entity| x != c
                    ==> world.spec_entity(x) == pre_world.spec_entity(x)
            }
        }),
    ensures
        changes_only_prefix(map, world, changes, i + 1),
        forall|x: Entity| map.spec_to_client(x) is Some
            ==> world.spec_entity(map.spec_to_client(x).unwrap()) is Some,
{
    let ci = map.spec_to_client(changes[i].0).unwrap();
    assert(world.spec_entity(ci) is Some);
    assert forall|x: Entity| map.spec_to_client(x) is Some implies
        world.spec_entity(map.spec_to_client(x).unwrap()) is Some by {
        if x != changes[i].0 {
            if map.spec_to_client(x) is Some {
                assert(map.spec_to_client(x) == pre_map.spec_to_client(x));
                let cx = map.spec_to_client(x).unwrap();
                assert(pre_world.spec_entity(cx) is Some);
                if cx != ci {
                    assert(world.spec_entity(cx) == pre_world.spec_entity(cx));
                } else {
                    assert(world.spec_entity(ci) is Some);
                }
            }
        }
    }
    assert forall|k: int| #![trigger changes[k]] {
        &&& 0 <= k < i + 1
        &&& forall|k2: int| k < k2 < i + 1
            ==> (#[trigger] changes[k2]).0 != changes[k].0
    } implies {
        &&& map.spec_to_client(changes[k].0) is Some
        &&& world.spec_entity(map.spec_to_client(changes[k].0).unwrap()) is Some
        &&& forall|q: int|
            0 <= q < changes[k].1@.len() && (forall|j: int|
                q < j < changes[k].1@.len()
                    ==> (#[trigger] changes[k].1@[j]).0 != changes[k].1@[q].0)
                ==> world.spec_component(
                    map.spec_to_client(changes[k].0).unwrap(),
                    (#[trigger] changes[k].1@[q]).0,
                ) == Some(changes[k].1@[q].1@)
    } by {
        if k < i {
            let sk = changes[k].0;
            assert(changes[i].0 != sk);
            let ck = pre_map.spec_to_client(sk).unwrap();
            assert(pre_world.spec_entity(ck) is Some);
            // the step's mapping for sk is preserved: the step's image is
            // either pre-existing (then the map is untouched) or fresh,
            // hence not the live ck
            assert(map.spec_to_client(sk) == Some(ck)) by {
                if map.spec_to_client(sk) != pre_map.spec_to_client(sk) {
                    assert(pre_map.spec_to_client(sk) == Some(ci));
                    assert(ck == ci);
                    if pre_map.spec_to_client(changes[i].0) is Some {
                        assert(map == pre_map);
                    } else {
                        assert(pre_world.spec_entity(ci) is None);
                        assert(pre_world.spec_entity(ck) is Some);
                    }
                }
            }
            assert(ck != ci || world.spec_entity(ck) is Some);
            if ck != ci {
                assert(world.spec_entity(ck) == pre_world.spec_entity(ck));
                assert forall|q: int|
                    0 <= q < changes[k].1@.len() && (forall|j: int|
                        q < j < changes[k].1@.len()
                            ==> (#[trigger] changes[k].1@[j]).0 != changes[k].1@[q].0)
                    implies world.spec_component(ck, (#[trigger] changes[k].1@[q]).0)
                        == Some(changes[k].1@[q].1@) by {
                    assert(pre_world.spec_component(ck, changes[k].1@[q].0)
                        == Some(changes[k].1@[q].1@));
                }
            } else {
                // ck == ci is impossible: the step's image is fresh or the
                // preserved image of a different server
                if pre_map.spec_to_client(changes[i].0) is Some {
                    assert(pre_map.spec_to_client(changes[i].0) == Some(ci));
                    assert(pre_map.spec_to_server(ci) == Some(changes[i].0));
                    assert(pre_map.spec_to_client(sk) == Some(ck));
                    assert(pre_map.spec_to_server(ck) == Some(sk));
                    assert(false);
                } else {
                    assert(pre_world.spec_entity(ci) is None);
                    assert(false);
                }
            }
        } else {
            assert(pre_world.spec_entity(ci) is Some || ci.index < u32::MAX
                || pre_map.spec_to_client(changes[i].0) is None) by {
                if pre_map.spec_to_client(changes[i].0) is Some {
                    assert(pre_map.spec_to_client(changes[i].0) == map.spec_to_client(
                        changes[i].0));
                    assert(pre_world.spec_entity(ci) is Some);
                }
            }
        }
    }
}

/// Prefix form of the insertions-only guarantee, for the loop.
pub open spec fn changes_only_prefix(
    map: ServerEntityMap,
    world: ClientWorld,
    changes: Seq<(Entity, Vec<(u64, Vec<u8>)>)>,
    upto: int,
) -> bool {
    forall|k: int| #![trigger changes[k]] {
        &&& 0 <= k < upto
        &&& forall|k2: int| k < k2 < upto
            ==> (#[trigger] changes[k2]).0 != changes[k].0
    } ==> {
        &&& map.spec_to_client(changes[k].0) is Some
        &&& world.spec_entity(map.spec_to_client(changes[k].0).unwrap()) is Some
        &&& forall|q: int|
            0 <= q < changes[k].1@.len() && (forall|j: int|
                q < j < changes[k].1@.len()
                    ==> (#[trigger] changes[k].1@[j]).0 != changes[k].1@[q].0)
                ==> world.spec_component(
                    map.spec_to_client(changes[k].0).unwrap(),
                    (#[trigger] changes[k].1@[q]).0,
                ) == Some(changes[k].1@[q].1@)
    }
}

/// Applies one whole mutate message entry by entry through
/// [`apply_mutate_entry`]: every entry whose entity is mapped to a live
/// client entity has its components written, later entries for the same
/// entity overriding earlier ones; entries for unmapped or dead entities,
/// and every entity the message does not address, leave the world as it
/// was. Mutations never spawn or despawn anything.
pub fn apply_mutate_message(
    world: &mut ClientWorld,
    map: &ServerEntityMap,
    data: &MutateMessageData,
)
    requires
        old(world).wf(),
        map.wf(),
    ensures
        final(world).wf(),
        // No entity appears or disappears through mutations.
        forall|c: Entity| (final(world).spec_entity(c) is Some)
            == (old(world).spec_entity(c) is Some),
        // An entity no entry maps onto keeps all its components.
        forall|c: Entity| (forall|k: int| 0 <= k < data.entities@.len()
            ==> map.spec_to_client((#[trigger] data.entities@[k]).0) != Some(c))
            ==> final(world).spec_entity(c) == old(world).spec_entity(c),
        // The last entry addressing a live client entity decides its
        // components: each of the entry's last-occurrence payloads is
        // stored under its codec identifier.
        forall|k: int| #![trigger data.entities@[k]] {
            &&& 0 <= k < data.entities@.len()
            &&& map.spec_to_client(data.entities@[k].0) is Some
            &&& old(world).spec_entity(map.spec_to_client(data.entities@[k].0).unwrap()) is Some
            &&& forall|k2: int| k < k2 < data.entities@.len()
                ==> map.spec_to_client((#[trigger] data.entities@[k2]).0)
                    != map.spec_to_client(data.entities@[k].0)
        } ==> {
            let c = map.spec_to_client(data.entities@[k].0).unwrap();
            forall|i: int|
                0 <= i < data.entities@[k].1@.len() && (forall|j: int|
                    i < j < data.entities@[k].1@.len()
                        ==> (#[trigger] data.entities@[k].1@[j]).0
                            != data.entities@[k].1@[i].0)
                    ==> final(world).spec_component(c, (#[trigger] data.entities@[k].1@[i]).0)
                        == Some(data.entities@[k].1@[i].1@)
        },
{
    let mut i: usize = 0;
    while i < data.entities.len()
        invariant
            i <= data.entities@.len(),
            world.wf(),
            map.wf(),
            forall|c: Entity| (world.spec_entity(c) is Some)
                == (old(world).spec_entity(c) is Some),
            forall|c: Entity| (forall|k: int| 0 <= k < i
                ==> map.spec_to_client((#[trigger] data.entities@[k]).0) != Some(c))
                ==> world.spec_entity(c) == old(world).spec_entity(c),
            forall|k: int| #![trigger data.entities@[k]] {
                &&& 0 <= k < i
                &&& map.spec_to_client(data.entities@[k].0) is Some
                &&& old(world).spec_entity(
                    map.spec_to_client(data.entities@[k].0).unwrap()) is Some
                &&& forall|k2: int| k < k2 < i
                    ==> map.spec_to_client((#[trigger] data.entities@[k2]).0)
                        != map.spec_to_client(data.entities@[k].0)
            } ==> {
                let c = map.spec_to_client(data.entities@[k].0).unwrap();
                forall|q: int|
                    0 <= q < data.entities@[k].1@.len() && (forall|j: int|
                        q < j < data.entities@[k].1@.len()
                            ==> (#[trigger] data.entities@[k].1@[j]).0
                                != data.entities@[k].1@[q].0)
                        ==> world.spec_component(c, (#[trigger] data.entities@[k].1@[q]).0)
                            == Some(data.entities@[k].1@[q].1@)
            },
        decreases data.entities@.len() - i,
    {
        let ghost pre = *world;
        let entry = &data.entities[i];
        apply_mutate_entry(world, map, entry.0, &entry.1);
        proof {
            let image = map.spec_to_client(data.entities@[i as int].0);
            assert forall|c: Entity| (forall|k: int| 0 <= k < i + 1
                ==> map.spec_to_client((#[trigger] data.entities@[k]).0) != Some(c))
                implies world.spec_entity(c) == old(world).spec_entity(c) by {
                assert(map.spec_to_client(data.entities@[i as int].0) != Some(c));
                assert(world.spec_entity(c) == pre.spec_entity(c));
            }
            assert forall|k: int| #![trigger data.entities@[k]] {
                &&& 0 <= k < i + 1
                &&& map.spec_to_client(data.entities@[k].0) is Some
                &&& old(world).spec_entity(
                    map.spec_to_client(data.entities@[k].0).unwrap()) is Some
                &&& forall|k2: int| k < k2 < i + 1
                    ==> map.spec_to_client((#[trigger] data.entities@[k2]).0)
                        != map.spec_to_client(data.entities@[k].0)
            } implies {
                let c = map.spec_to_client(data.entities@[k].0).unwrap();
                forall|q: int|
                    0 <= q < data.entities@[k].1@.len() && (forall|j: int|
                        q < j < data.entities@[k].1@.len()
                            ==> (#[trigger] data.entities@[k].1@[j]).0
                                != data.entities@[k].1@[q].0)
                        ==> world.spec_component(c, (#[trigger] data.entities@[k].1@[q]).0)
                            == Some(data.entities@[k].1@[q].1@)
            } by {
                let c = map.spec_to_client(data.entities@[k].0).unwrap();
                if k == i {
                    assert(pre.spec_entity(c) is Some);
                } else {
                    assert(map.spec_to_client(data.entities@[i as int].0) != Some(c));
                    assert(world.spec_entity(c) == pre.spec_entity(c));
                    assert forall|q: int|
                        0 <= q < data.entities@[k].1@.len() && (forall|j: int|
                            q < j < data.entities@[k].1@.len()
                                ==> (#[trigger] data.entities@[k].1@[j]).0
                                    != data.entities@[k].1@[q].0)
                        implies world.spec_component(c, (#[trigger] data.entities@[k].1@[q]).0)
                            == Some(data.entities@[k].1@[q].1@) by {
                        assert(pre.spec_component(c, data.entities@[k].1@[q].0)
                            == Some(data.entities@[k].1@[q].1@));
                    }
                }
            }
        }
        i = i + 1;
    }
}

/// Where the client stands with the server.
#[derive(Clone, Copy, Debug, Default, PartialEq, Eq, Structural)]
pub enum ClientState {
    /// No connection; nothing is received.
    #[default]
    Disconnected,
    /// The transport is connecting; nothing is applied yet.
    Connecting,
    /// Connected: change messages apply in arrival order and advance the
    /// init tick.
    Connected,
}

/// Discards everything a session accumulated, as a disconnect does: no
/// partial message sequence is ever repaired, the client resynchronizes
/// from scratch after its next connect.
pub fn client_reset(map: &mut ServerEntityMap, buffered: &mut BufferedUpdates)
    ensures
        final(map).wf(),
        final(map).to_client_view().len() == 0,
        final(map).to_server_view().len() == 0,
        final(buffered).updates@.len() == 0,
{
    map.clear();
    buffered.clear();
}

/// Mutate messages waiting for the init tick to catch up.
pub struct BufferedUpdates {
    pub updates: Vec<MutateMessageData>,
}

impl BufferedUpdates {
    pub fn new() -> (r: Self)
        ensures
            r.updates@.len() == 0,
    {
        BufferedUpdates { updates: Vec::new() }
    }

    pub fn len(&self) -> (r: usize)
        ensures
            r == self.updates@.len(),
    {
        self.updates.len()
    }

    /// Forgets everything buffered, as a disconnect does.
    pub fn clear(&mut self)
        ensures
            final(self).updates@.len() == 0,
    {
        self.updates.clear();
    }
}

/// Receives one mutate message: applied at once when its tick is not ahead
/// of the client's init tick, else buffered until the init tick catches
/// up.
pub fn receive_mutate_message(
    world: &mut ClientWorld,
    map: &ServerEntityMap,
    buffered: &mut BufferedUpdates,
    init_tick: RepliconTick,
    data: MutateMessageData,
) -> (applied: bool)
    requires
        old(world).wf(),
        map.wf(),
    ensures
        final(world).wf(),
        applied == !RepliconTick::spec_gt(data.tick, init_tick),
        !applied ==> *final(world) == *old(world)
            && final(buffered).updates@.len() == old(buffered).updates@.len() + 1,
        applied ==> *final(buffered) == *old(buffered),
{
    let newer = {
        let d = data.tick.diff(init_tick);
        d != 0 && d <= u32::MAX / 2
    };
    if newer {
        buffer_update(buffered, data);
        false
    } else {
        apply_mutate_message(world, map, &data);
        true
    }
}

fn buffer_update(buffered: &mut BufferedUpdates, data: MutateMessageData)
    ensures
        final(buffered).updates@.len() == old(buffered).updates@.len() + 1,
{
    buffered.updates.push(data);
}

/// Applies every buffered mutate message whose tick the init tick has
/// reached, keeping only those still ahead.
/// The buffered updates whose tick is still ahead of `init_tick`, in
/// buffering order.
pub open spec fn spec_still_ahead(
    s: Seq<MutateMessageData>,
    init_tick: RepliconTick,
) -> Seq<MutateMessageData>
    decreases s.len(),
{
    if s.len() == 0 {
        Seq::empty()
    } else {
        let rest = spec_still_ahead(s.drop_first(), init_tick);
        if RepliconTick::spec_gt(s[0].tick, init_tick) {
            seq![s[0]] + rest
        } else {
            rest
        }
    }
}

proof fn lemma_still_ahead_snoc(
    s: Seq<MutateMessageData>,
    d: MutateMessageData,
    init_tick: RepliconTick,
)
    ensures
        spec_still_ahead(s.push(d), init_tick) == spec_still_ahead(s, init_tick)
            + (if RepliconTick::spec_gt(d.tick, init_tick) {
            seq![d]
        } else {
            Seq::<MutateMessageData>::empty()
        }),
    decreases s.len(),
{
    let tail = if RepliconTick::spec_gt(d.tick, init_tick) {
        seq![d]
    } else {
        Seq::<MutateMessageData>::empty()
    };
    if s.len() == 0 {
        let p = s.push(d);
        assert(p[0] == d);
        assert(p.drop_first() =~= Seq::<MutateMessageData>::empty());
        assert(spec_still_ahead(p.drop_first(), init_tick)
            =~= Seq::<MutateMessageData>::empty());
        assert(spec_still_ahead(p, init_tick) =~= tail);
        assert(spec_still_ahead(s, init_tick) + tail =~= tail);
    } else {
        assert(s.push(d).drop_first() =~= s.drop_first().push(d));
        assert(s.push(d)[0] == s[0]);
        lemma_still_ahead_snoc(s.drop_first(), d, init_tick);
        assert(spec_still_ahead(s.push(d), init_tick)
            =~= spec_still_ahead(s, init_tick) + tail);
    }
}

/// Applies every buffered mutate message whose tick the init tick has
/// reached, each through [`apply_mutate_message`] in buffering order, and
/// keeps exactly the updates that are still ahead, in their order.
pub fn apply_buffered_updates(
    world: &mut ClientWorld,
    map: &ServerEntityMap,
    buffered: &mut BufferedUpdates,
    init_tick: RepliconTick,
)
    requires
        old(world).wf(),
        map.wf(),
    ensures
        final(world).wf(),
        final(buffered).updates@ == spec_still_ahead(old(buffered).updates@, init_tick),
        // No entity appears or disappears through buffered mutations.
        forall|c: Entity| (final(world).spec_entity(c) is Some)
            == (old(world).spec_entity(c) is Some),
        // With every update still ahead, nothing is applied.
        (forall|i: int| 0 <= i < old(buffered).updates@.len()
            ==> RepliconTick::spec_gt((#[trigger] old(buffered).updates@[i]).tick, init_tick))
            ==> *final(world) == *old(world),
{
    let ghost orig = old(buffered).updates@;
    let mut pending: Vec<MutateMessageData> = Vec::new();
    core::mem::swap(&mut pending, &mut buffered.updates);
    let ghost total = orig.len() as int;
    proof {
        vstd::std_specs::vec::axiom_spec_len(&pending);
    }
    let mut processed: usize = 0;
    while pending.len() > 0
        invariant
            world.wf(),
            map.wf(),
            processed + pending@.len() == total,
            total == orig.len(),
            total <= usize::MAX,
            pending@ == orig.subrange(processed as int, total),
            buffered.updates@ == spec_still_ahead(orig.subrange(0, processed as int), init_tick),
            forall|c: Entity| (world.spec_entity(c) is Some)
                == (old(world).spec_entity(c) is Some),
            (forall|i: int| 0 <= i < orig.len()
                ==> RepliconTick::spec_gt((#[trigger] orig[i]).tick, init_tick))
                ==> *world == *old(world),
        decreases pending@.len(),
    {
        let ghost p = processed as int;
        proof {
            assert(orig.subrange(p, total)[0] == orig[p]);
            assert(orig.subrange(0, p).push(orig[p]) =~= orig.subrange(0, p + 1));
            lemma_still_ahead_snoc(orig.subrange(0, p), orig[p], init_tick);
        }
        let ghost pre_pending = pending@;
        let data = pending.remove(0);
        proof {
            assert(pending@ =~= pre_pending.remove(0));
            assert(pending@ =~= orig.subrange(p + 1, total)) by {
                assert forall|i: int| 0 <= i < pending@.len() implies
                    pending@[i] == orig.subrange(p + 1, total)[i] by {
                    assert(pending@[i] == pre_pending[i + 1]);
                    assert(pre_pending[i + 1] == orig.subrange(p, total)[i + 1]);
                    assert(orig.subrange(p, total)[i + 1] == orig[p + 1 + i]);
                    assert(orig.subrange(p + 1, total)[i] == orig[p + 1 + i]);
                }
            }
        }
        let still_ahead = {
            let d = data.tick.diff(init_tick);
            d != 0 && d <= u32::MAX / 2
        };
        if still_ahead {
            buffered.updates.push(data);
            proof {
                assert(buffered.updates@
                    =~= spec_still_ahead(orig.subrange(0, p + 1), init_tick));
            }
        } else {
            apply_mutate_message(world, map, &data);
            proof {
                assert(buffered.updates@
                    =~= spec_still_ahead(orig.subrange(0, p + 1), init_tick));
            }
        }
        processed = processed + 1;
    }
    proof {
        assert(orig.subrange(0, total) =~= orig);
    }
}

} // verus!
