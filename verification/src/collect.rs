//! The server's collection pass.
//!
//! Once per tick the pass walks the replicated entities, diffs them against
//! every client's acknowledged floor ticks, and builds one change and one
//! mutate message per client out of ranges into the shared arena. An
//! entity's value mutations are folded into the change message whenever the
//! same entity also changed structurally, so no client can see the two
//! split across reliability classes.

use vstd::prelude::*;
use crate::buffer::{ByteRange, ReplicationBuffer};
use crate::change_message::{ChangeMessage, SerializeError};
use crate::change_tick::Tick;
use crate::entity::Entity;
use crate::entity_map::ClientEntityMap;
use crate::messages::ReplicationMessages;
use crate::mutate_message::MutateMessage;
use crate::replicated_clients::{ClientId, ReplicatedClients};
use crate::snapshot::{classify, ComponentClass, DespawnEntry, EntitySnapshot, RemovalEntry};
use crate::tick::RepliconTick;
use crate::varint::{varint_bytes, write_varint};
use crate::visibility::Visibility;

verus! {

/// Wire bytes of one component chunk: the codec identifier, the payload
/// length, then the payload.
pub open spec fn chunk_bytes(fns_id: u64, payload: Seq<u8>) -> Seq<u8> {
    varint_bytes(fns_id as nat) + varint_bytes(payload.len() as nat) + payload
}

/// Appends one component chunk to the arena and returns its range.
pub fn write_component_chunk(
    serialized: &mut ReplicationBuffer,
    fns_id: u64,
    payload: &Vec<u8>,
) -> (r: ByteRange)
    requires
        old(serialized).wf(),
    ensures
        final(serialized).wf(),
        final(serialized).data() == old(serialized).data() + chunk_bytes(fns_id, payload@),
        r.valid_for(final(serialized).data()),
        r.select(final(serialized).data()) == chunk_bytes(fns_id, payload@),
{
    let mut head: Vec<u8> = Vec::new();
    write_varint(&mut head, fns_id);
    write_varint(&mut head, payload.len() as u64);
    let mut i: usize = 0;
    while i < payload.len()
        invariant
            i <= payload@.len(),
            head@ == varint_bytes(fns_id as nat) + varint_bytes(payload@.len() as nat)
                + payload@.subrange(0, i as int),
        decreases payload@.len() - i,
    {
        head.push(payload[i]);
        i = i + 1;
        proof {
            assert(head@ =~= varint_bytes(fns_id as nat) + varint_bytes(payload@.len() as nat)
                + payload@.subrange(0, i as int));
        }
    }
    proof {
        assert(head@ =~= chunk_bytes(fns_id, payload@));
    }
    serialized.write(head.as_slice())
}

/// A change message's ranges stay valid when the arena only grows.
pub proof fn lemma_change_wf_extend(m: ChangeMessage, d1: Seq<u8>, d2: Seq<u8>)
    requires
        m.wf(d1),
        d1.len() <= d2.len(),
    ensures
        m.wf(d2),
{
    assert forall|i: int| 0 <= i < m.spec_despawns().len()
        implies (#[trigger] m.spec_despawns()[i]).valid_for(d2) by {
        assert(m.spec_despawns()[i].valid_for(d1));
    }
    assert forall|i: int| 0 <= i < m.spec_removals().len() implies {
        &&& (#[trigger] m.spec_removals()[i]).entity.valid_for(d2)
        &&& m.spec_removals()[i].fn_ids.valid_for(d2)
    } by {
        assert(m.spec_removals()[i].entity.valid_for(d1));
        assert(m.spec_removals()[i].fn_ids.valid_for(d1));
    }
    assert forall|i: int| 0 <= i < m.spec_changes().len() implies {
        &&& (#[trigger] m.spec_changes()[i]).0.valid_for(d2)
        &&& crate::buffer::ranges_valid(m.spec_changes()[i].1, d2)
    } by {
        assert(m.spec_changes()[i].0.valid_for(d1));
        assert(crate::buffer::ranges_valid(m.spec_changes()[i].1, d1));
        assert forall|j: int| 0 <= j < m.spec_changes()[i].1.len()
            implies (#[trigger] m.spec_changes()[i].1[j]).valid_for(d2) by {
            assert(m.spec_changes()[i].1[j].valid_for(d1));
        }
    }
}

/// A mutate message's ranges stay valid when the arena only grows.
pub proof fn lemma_mutate_wf_extend(m: MutateMessage, d1: Seq<u8>, d2: Seq<u8>)
    requires
        m.wf(d1),
        d1.len() <= d2.len(),
    ensures
        m.wf(d2),
{
    assert forall|i: int| 0 <= i < m.spec_mutations().len() implies {
        &&& (#[trigger] m.spec_mutations()[i]).0.valid_for(d2)
        &&& crate::buffer::ranges_valid(m.spec_mutations()[i].1, d2)
    } by {
        assert(m.spec_mutations()[i].0.valid_for(d1));
        assert(crate::buffer::ranges_valid(m.spec_mutations()[i].1, d1));
        assert forall|j: int| 0 <= j < m.spec_mutations()[i].1.len()
            implies (#[trigger] m.spec_mutations()[i].1[j]).valid_for(d2) by {
            assert(m.spec_mutations()[i].1[j].valid_for(d1));
        }
    }
}

/// Collects one snapshot entity into one client's message pair.
///
/// A hidden entity contributes nothing. An entity new to the client, by a
/// missing floor tick or freshly gained visibility, goes to the change
/// message as a full snapshot. Otherwise each component goes where its
/// ticks say under [`spec_classify`]: insertions to the change message,
/// pure value changes to the mutate message. When the entity changed
/// structurally, its mutations are folded into the change message, so the
/// mutate message keeps an entry for the entity only when nothing
/// structural happened: structural changes and mutations of one entity are
/// never split across the two messages.
///
/// Returns whether the entity was written structurally, which holds
/// exactly when it is visible and some component classifies as an
/// insertion; the caller then raises the entity's floor at once so this
/// tick's mutations are not re-sent.
pub fn collect_entity(
    change: &mut ChangeMessage,
    mutate: &mut MutateMessage,
    serialized: &mut ReplicationBuffer,
    visibility_state: Visibility,
    floor: Option<Tick>,
    snapshot: &EntitySnapshot,
    system_tick: Tick,
) -> (structural: bool)
    requires
        old(change).inv(),
        old(change).wf(old(serialized).data()),
        old(mutate).inv(),
        old(mutate).wf(old(serialized).data()),
        old(serialized).wf(),
    ensures
        final(change).inv(),
        final(change).wf(final(serialized).data()),
        final(mutate).inv(),
        final(mutate).wf(final(serialized).data()),
        final(serialized).wf(),
        old(serialized).data().len() <= final(serialized).data().len(),
        final(serialized).data().subrange(0, old(serialized).data().len() as int)
            == old(serialized).data(),
        final(change).spec_mappings() == old(change).spec_mappings(),
        final(change).spec_despawns() == old(change).spec_despawns(),
        final(change).spec_despawns_len() == old(change).spec_despawns_len(),
        final(change).spec_removals() == old(change).spec_removals(),
        // The entity is written structurally exactly when it is visible
        // and some component classifies as an insertion.
        structural == (visibility_state != Visibility::Hidden
            && crate::snapshot::chunks_of_class(
            snapshot.components@,
            ComponentClass::Insert,
            crate::snapshot::spec_new_entity(visibility_state, floor),
            floor,
            system_tick,
        ).len() > 0),
        structural ==> {
            &&& final(mutate).spec_mutations() == old(mutate).spec_mutations()
            &&& final(change).spec_changes().len() == old(change).spec_changes().len() + 1
            &&& final(change).spec_changes().subrange(0, old(change).spec_changes().len() as int)
                == old(change).spec_changes()
        },
        // The one new changes entry carries the entity's encoding and the
        // chunk encodings of its insertion-classified components, then of
        // its mutation-classified ones, folded in to stay atomic.
        structural ==> ({
            let new_e = crate::snapshot::spec_new_entity(visibility_state, floor);
            let inserts = crate::snapshot::chunks_of_class(
                snapshot.components@, ComponentClass::Insert, new_e, floor, system_tick);
            let mutates = crate::snapshot::chunks_of_class(
                snapshot.components@, ComponentClass::Mutate, new_e, floor, system_tick);
            let entry = final(change).spec_changes().last();
            &&& entry.0.select(final(serialized).data())
                == crate::entity::entity_bytes(snapshot.entity)
            &&& entry.1.len() == inserts.len() + mutates.len()
            &&& forall|j: int| 0 <= j < inserts.len()
                ==> (#[trigger] entry.1[j]).select(final(serialized).data())
                    == chunk_bytes(inserts[j].0, inserts[j].1)
            &&& forall|j: int| inserts.len() <= j < entry.1.len()
                ==> (#[trigger] entry.1[j]).select(final(serialized).data())
                    == chunk_bytes(
                    mutates[j - inserts.len()].0,
                    mutates[j - inserts.len()].1,
                )
        }),
        !structural ==> {
            &&& final(change).spec_changes() == old(change).spec_changes()
            &&& final(mutate).spec_mutations().len() <= old(mutate).spec_mutations().len() + 1
            &&& final(mutate).spec_mutations().subrange(
                0, old(mutate).spec_mutations().len() as int)
                == old(mutate).spec_mutations()
                || final(mutate).spec_mutations() == old(mutate).spec_mutations()
        },
        // Without a structural change, the mutate message gains exactly
        // one entry when some component classifies as a mutation, carrying
        // the entity's encoding and those components' chunk encodings, and
        // nothing otherwise.
        visibility_state != Visibility::Hidden && !structural ==> ({
            let new_e = crate::snapshot::spec_new_entity(visibility_state, floor);
            let mutates = crate::snapshot::chunks_of_class(
                snapshot.components@, ComponentClass::Mutate, new_e, floor, system_tick);
            if mutates.len() == 0 {
                final(mutate).spec_mutations() == old(mutate).spec_mutations()
            } else {
                let m = final(mutate).spec_mutations().last();
                &&& final(mutate).spec_mutations().len()
                    == old(mutate).spec_mutations().len() + 1
                &&& m.0.select(final(serialized).data())
                    == crate::entity::entity_bytes(snapshot.entity)
                &&& m.1.len() == mutates.len()
                &&& forall|j: int| 0 <= j < mutates.len()
                    ==> (#[trigger] m.1[j]).select(final(serialized).data())
                        == chunk_bytes(mutates[j].0, mutates[j].1)
            }
        }),
        visibility_state == Visibility::Hidden
            ==> final(mutate).spec_mutations() == old(mutate).spec_mutations()
                && *final(serialized) == *old(serialized),
{
    change.start_entity_changes(visibility_state);
    mutate.start_entity_mutations();
    if matches!(visibility_state, Visibility::Hidden) {
        return false;
    }
    let new_entity = floor.is_none() || matches!(visibility_state, Visibility::Gained);
    let ghost new_e = crate::snapshot::spec_new_entity(visibility_state, floor);
    proof {
        assert(new_entity == new_e);
    }
    let entity_range = serialized.write_entity(snapshot.entity);
    proof {
        lemma_change_wf_extend(*change, old(serialized).data(), serialized.data());
        lemma_mutate_wf_extend(*mutate, old(serialized).data(), serialized.data());
        assert(serialized.data().subrange(0, old(serialized).data().len() as int)
            =~= old(serialized).data());
    }
    let ghost base_mutations = mutate.spec_mutations();
    let ghost base_changes = change.spec_changes();
    let ghost comps = snapshot.components@;
    let mut i: usize = 0;
    while i < snapshot.components.len()
        invariant
            change.inv(),
            change.wf(serialized.data()),
            mutate.inv(),
            mutate.wf(serialized.data()),
            serialized.wf(),
            i <= comps.len(),
            comps == snapshot.components@,
            new_e == crate::snapshot::spec_new_entity(visibility_state, floor),
            new_entity == new_e,
            old(serialized).data().len() <= serialized.data().len(),
            serialized.data().subrange(0, old(serialized).data().len() as int)
                == old(serialized).data(),
            change.spec_mappings() == old(change).spec_mappings(),
            change.spec_despawns() == old(change).spec_despawns(),
            change.spec_despawns_len() == old(change).spec_despawns_len(),
            change.spec_removals() == old(change).spec_removals(),
            entity_range.valid_for(serialized.data()),
            entity_range.select(serialized.data())
                == crate::entity::entity_bytes(snapshot.entity),
            base_mutations == old(mutate).spec_mutations(),
            base_changes == old(change).spec_changes(),
            change.spec_entity_written() == (crate::snapshot::chunks_of_class(
                comps.subrange(0, i as int), ComponentClass::Insert, new_e, floor, system_tick,
            ).len() > 0),
            mutate.spec_entity_written() == (crate::snapshot::chunks_of_class(
                comps.subrange(0, i as int), ComponentClass::Mutate, new_e, floor, system_tick,
            ).len() > 0),
            !change.spec_entity_written() ==> change.spec_changes() == base_changes,
            change.spec_entity_written() ==> ({
                let inserts = crate::snapshot::chunks_of_class(
                    comps.subrange(0, i as int), ComponentClass::Insert, new_e, floor,
                    system_tick);
                let entry = change.spec_changes().last();
                &&& change.spec_changes().len() == base_changes.len() + 1
                &&& change.spec_changes().subrange(0, base_changes.len() as int)
                    == base_changes
                &&& entry.0 == entity_range
                &&& entry.1.len() == inserts.len()
                &&& forall|j: int| 0 <= j < inserts.len()
                    ==> (#[trigger] entry.1[j]).select(serialized.data())
                        == chunk_bytes(inserts[j].0, inserts[j].1)
            }),
            !mutate.spec_entity_written() ==> mutate.spec_mutations() == base_mutations,
            mutate.spec_entity_written() ==> ({
                let mutates = crate::snapshot::chunks_of_class(
                    comps.subrange(0, i as int), ComponentClass::Mutate, new_e, floor,
                    system_tick);
                let m = mutate.spec_mutations().last();
                &&& mutate.spec_mutations().len() == base_mutations.len() + 1
                &&& mutate.spec_mutations().subrange(0, base_mutations.len() as int)
                    == base_mutations
                &&& m.0 == entity_range
                &&& m.1.len() == mutates.len()
                &&& forall|j: int| 0 <= j < mutates.len()
                    ==> (#[trigger] m.1[j]).select(serialized.data())
                        == chunk_bytes(mutates[j].0, mutates[j].1)
            }),
        decreases comps.len() - i,
    {
        let component = &snapshot.components[i];
        let ghost pfx = comps.subrange(0, i as int);
        proof {
            assert(pfx.push(comps[i as int]) =~= comps.subrange(0, i + 1));
            crate::snapshot::lemma_chunks_of_class_snoc(
                pfx, comps[i as int], ComponentClass::Insert, new_e, floor, system_tick);
            crate::snapshot::lemma_chunks_of_class_snoc(
                pfx, comps[i as int], ComponentClass::Mutate, new_e, floor, system_tick);
        }
        let class = if new_entity {
            ComponentClass::Insert
        } else {
            classify(component.added, component.changed, floor, system_tick)
        };
        proof {
            assert(class == crate::snapshot::spec_class_of(
                comps[i as int], new_e, floor, system_tick));
        }
        match class {
            ComponentClass::Insert => {
                let ghost pre_changes = change.spec_changes();
                if !change.entity_written() {
                    change.add_changed_entity(entity_range);
                    proof {
                        assert(change.spec_changes().subrange(0, base_changes.len() as int)
                            =~= base_changes);
                        assert(change.wf(serialized.data())) by {
                            assert forall|k: int| 0 <= k < change.spec_changes().len() implies {
                                &&& (#[trigger] change.spec_changes()[k]).0.valid_for(
                                    serialized.data())
                                &&& crate::buffer::ranges_valid(
                                    change.spec_changes()[k].1, serialized.data())
                            } by {
                                if k < change.spec_changes().len() - 1 {
                                    assert(change.spec_changes()[k] == pre_changes[k]);
                                } else {
                                    assert(change.spec_changes()[k]
                                        == (entity_range, Seq::<ByteRange>::empty()));
                                }
                            }
                        }
                    }
                }
                let ghost data_pre = serialized.data();
                let ghost entry_pre = change.spec_changes().last();
                let chunk = write_component_chunk(serialized, component.fns_id, &component.payload);
                proof {
                    lemma_change_wf_extend(*change, data_pre, serialized.data());
                    lemma_mutate_wf_extend(*mutate, data_pre, serialized.data());
                    assert(serialized.data().subrange(0, old(serialized).data().len() as int)
                        =~= old(serialized).data());
                    crate::buffer::lemma_select_stable(
                        entity_range, data_pre, chunk_bytes(component.fns_id, component.payload@));
                    mutate_selections_stable(*mutate, base_mutations, entity_range,
                        comps, i as int, new_e, floor, system_tick, data_pre,
                        chunk_bytes(component.fns_id, component.payload@));
                    assert forall|j: int| 0 <= j < entry_pre.1.len() implies
                        (#[trigger] entry_pre.1[j]).select(serialized.data())
                            == entry_pre.1[j].select(data_pre) by {
                        crate::buffer::lemma_select_stable(entry_pre.1[j], data_pre,
                            chunk_bytes(component.fns_id, component.payload@));
                    }
                }
                let ghost mid_changes = change.spec_changes();
                change.add_inserted_component(chunk);
                proof {
                    assert(change.spec_changes().subrange(0, base_changes.len() as int)
                        =~= base_changes);
                    assert(change.wf(serialized.data())) by {
                        assert forall|k: int| 0 <= k < change.spec_changes().len() implies {
                            &&& (#[trigger] change.spec_changes()[k]).0.valid_for(
                                serialized.data())
                            &&& crate::buffer::ranges_valid(
                                change.spec_changes()[k].1, serialized.data())
                        } by {
                            if k < change.spec_changes().len() - 1 {
                                assert(change.spec_changes()[k] == mid_changes[k]);
                            } else {
                                assert(change.spec_changes()[k].0 == mid_changes[k].0);
                                assert(change.spec_changes()[k].1
                                    == mid_changes[k].1.push(chunk));
                                assert forall|j: int|
                                    0 <= j < change.spec_changes()[k].1.len() implies
                                    (#[trigger] change.spec_changes()[k].1[j]).valid_for(
                                        serialized.data()) by {
                                    if j < change.spec_changes()[k].1.len() - 1 {
                                        assert(change.spec_changes()[k].1[j]
                                            == mid_changes[k].1[j]);
                                    } else {
                                        assert(change.spec_changes()[k].1[j] == chunk);
                                    }
                                }
                            }
                        }
                    }
                    let inserts = crate::snapshot::chunks_of_class(
                        comps.subrange(0, i + 1), ComponentClass::Insert, new_e, floor,
                        system_tick);
                    let entry = change.spec_changes().last();
                    assert(entry.1 =~= entry_pre.1.push(chunk));
                    assert forall|j: int| 0 <= j < inserts.len() implies
                        (#[trigger] entry.1[j]).select(serialized.data())
                            == chunk_bytes(inserts[j].0, inserts[j].1) by {
                        if j < inserts.len() - 1 {
                            assert(entry.1[j] == entry_pre.1[j]);
                        } else {
                            assert(entry.1[j] == chunk);
                        }
                    }
                }
            },
            ComponentClass::Mutate => {
                let ghost pre_mutations = mutate.spec_mutations();
                if !mutate.mutations_written() {
                    mutate.add_mutated_entity(entity_range);
                    proof {
                        assert(mutate.spec_mutations().subrange(0, base_mutations.len() as int)
                            =~= base_mutations);
                        assert(mutate.wf(serialized.data())) by {
                            assert forall|k: int| 0 <= k < mutate.spec_mutations().len() implies {
                                &&& (#[trigger] mutate.spec_mutations()[k]).0.valid_for(
                                    serialized.data())
                                &&& crate::buffer::ranges_valid(
                                    mutate.spec_mutations()[k].1, serialized.data())
                            } by {
                                if k < mutate.spec_mutations().len() - 1 {
                                    assert(mutate.spec_mutations()[k] == pre_mutations[k]);
                                } else {
                                    assert(mutate.spec_mutations()[k]
                                        == (entity_range, Seq::<ByteRange>::empty()));
                                }
                            }
                        }
                    }
                }
                let ghost data_pre = serialized.data();
                let ghost m_pre = mutate.spec_mutations().last();
                let ghost entry_pre = change.spec_changes().last();
                let chunk = write_component_chunk(serialized, component.fns_id, &component.payload);
                proof {
                    lemma_change_wf_extend(*change, data_pre, serialized.data());
                    lemma_mutate_wf_extend(*mutate, data_pre, serialized.data());
                    assert(serialized.data().subrange(0, old(serialized).data().len() as int)
                        =~= old(serialized).data());
                    crate::buffer::lemma_select_stable(
                        entity_range, data_pre, chunk_bytes(component.fns_id, component.payload@));
                    assert forall|j: int| 0 <= j < m_pre.1.len() implies
                        (#[trigger] m_pre.1[j]).select(serialized.data())
                            == m_pre.1[j].select(data_pre) by {
                        crate::buffer::lemma_select_stable(m_pre.1[j], data_pre,
                            chunk_bytes(component.fns_id, component.payload@));
                    }
                    if change.spec_entity_written() {
                        assert forall|j: int| 0 <= j < entry_pre.1.len() implies
                            (#[trigger] entry_pre.1[j]).select(serialized.data())
                                == entry_pre.1[j].select(data_pre) by {
                            crate::buffer::lemma_select_stable(entry_pre.1[j], data_pre,
                                chunk_bytes(component.fns_id, component.payload@));
                        }
                    }
                }
                let ghost mid_mutations = mutate.spec_mutations();
                mutate.add_mutated_component(chunk);
                proof {
                    assert(mutate.spec_mutations().subrange(0, base_mutations.len() as int)
                        =~= base_mutations);
                    assert(mutate.wf(serialized.data())) by {
                        assert forall|k: int| 0 <= k < mutate.spec_mutations().len() implies {
                            &&& (#[trigger] mutate.spec_mutations()[k]).0.valid_for(
                                serialized.data())
                            &&& crate::buffer::ranges_valid(
                                mutate.spec_mutations()[k].1, serialized.data())
                        } by {
                            if k < mutate.spec_mutations().len() - 1 {
                                assert(mutate.spec_mutations()[k] == mid_mutations[k]);
                            } else {
                                assert(mutate.spec_mutations()[k].0 == mid_mutations[k].0);
                                assert(mutate.spec_mutations()[k].1
                                    == mid_mutations[k].1.push(chunk));
                                assert forall|j: int|
                                    0 <= j < mutate.spec_mutations()[k].1.len() implies
                                    (#[trigger] mutate.spec_mutations()[k].1[j]).valid_for(
                                        serialized.data()) by {
                                    if j < mutate.spec_mutations()[k].1.len() - 1 {
                                        assert(mutate.spec_mutations()[k].1[j]
                                            == mid_mutations[k].1[j]);
                                    } else {
                                        assert(mutate.spec_mutations()[k].1[j] == chunk);
                                    }
                                }
                            }
                        }
                    }
                    let mutates = crate::snapshot::chunks_of_class(
                        comps.subrange(0, i + 1), ComponentClass::Mutate, new_e, floor,
                        system_tick);
                    let m = mutate.spec_mutations().last();
                    assert(m.1 =~= m_pre.1.push(chunk));
                    assert forall|j: int| 0 <= j < mutates.len() implies
                        (#[trigger] m.1[j]).select(serialized.data())
                            == chunk_bytes(mutates[j].0, mutates[j].1) by {
                        if j < mutates.len() - 1 {
                            assert(m.1[j] == m_pre.1[j]);
                        } else {
                            assert(m.1[j] == chunk);
                        }
                    }
                }
            },
            ComponentClass::Skip => {},
        }
        i = i + 1;
    }
    proof {
        assert(comps.subrange(0, comps.len() as int) =~= comps);
    }
    let structural = change.entity_written();
    if structural {
        let ghost pre_changes = change.spec_changes();
        let ghost pre_mutations = mutate.spec_mutations();
        let ghost was_written = mutate.spec_entity_written();
        change.take_mutations(mutate);
        proof {
            let inserts = crate::snapshot::chunks_of_class(
                comps, ComponentClass::Insert, new_e, floor, system_tick);
            let mutates = crate::snapshot::chunks_of_class(
                comps, ComponentClass::Mutate, new_e, floor, system_tick);
            if !was_written {
                assert(mutate.spec_mutations() == base_mutations);
                assert(mutates.len() == 0);
                let entry = change.spec_changes().last();
                assert(entry.1.len() == inserts.len() + mutates.len());
            } else {
                assert(pre_mutations == base_mutations.push(pre_mutations.last()));
                assert(mutate.spec_mutations() =~= base_mutations);
                let entry = change.spec_changes().last();
                let prior = pre_changes.last();
                let m = pre_mutations.last();
                assert(entry.0 == prior.0);
                assert(entry.1 == prior.1 + m.1);
                assert(entry.1.len() == inserts.len() + mutates.len());
                assert forall|j: int| 0 <= j < inserts.len() implies
                    (#[trigger] entry.1[j]).select(serialized.data())
                        == chunk_bytes(inserts[j].0, inserts[j].1) by {
                    assert(entry.1[j] == prior.1[j]);
                }
                assert forall|j: int| inserts.len() <= j < entry.1.len() implies
                    (#[trigger] entry.1[j]).select(serialized.data())
                        == chunk_bytes(
                        mutates[j - inserts.len()].0, mutates[j - inserts.len()].1) by {
                    assert(entry.1[j] == m.1[j - inserts.len()]);
                }
                assert(change.wf(serialized.data())) by {
                    assert forall|k: int| 0 <= k < change.spec_changes().len() implies {
                        &&& (#[trigger] change.spec_changes()[k]).0.valid_for(
                            serialized.data())
                        &&& crate::buffer::ranges_valid(
                            change.spec_changes()[k].1, serialized.data())
                    } by {
                        if k < change.spec_changes().len() - 1 {
                            assert(change.spec_changes()[k] == pre_changes[k]);
                        } else {
                            assert(pre_changes[k].0.valid_for(serialized.data()));
                            assert(crate::buffer::ranges_valid(
                                pre_changes[k].1, serialized.data()));
                            assert(pre_mutations[pre_mutations.len() - 1].0.valid_for(
                                serialized.data()));
                            assert(crate::buffer::ranges_valid(
                                pre_mutations[pre_mutations.len() - 1].1, serialized.data()));
                            assert forall|j: int|
                                0 <= j < change.spec_changes()[k].1.len() implies
                                (#[trigger] change.spec_changes()[k].1[j]).valid_for(
                                    serialized.data()) by {
                                if j < pre_changes[k].1.len() {
                                    assert(change.spec_changes()[k].1[j]
                                        == pre_changes[k].1[j]);
                                } else {
                                    assert(change.spec_changes()[k].1[j]
                                        == pre_mutations.last().1[j - pre_changes[k].1.len()]);
                                }
                            }
                        }
                    }
                }
            }
            assert(change.spec_changes().subrange(0, base_changes.len() as int)
                =~= base_changes);
        }
    }
    structural
}

/// Selections recorded for the mutate message's current entry stay what
/// they were when the arena only grows.
proof fn mutate_selections_stable(
    m: MutateMessage,
    base_mutations: Seq<(ByteRange, Seq<ByteRange>)>,
    entity_range: ByteRange,
    comps: Seq<crate::snapshot::ComponentSnapshot>,
    i: int,
    new_e: bool,
    floor: Option<Tick>,
    system_tick: Tick,
    data: Seq<u8>,
    ext: Seq<u8>,
)
    requires
        m.wf(data),
        m.spec_entity_written() ==> ({
            let mutates = crate::snapshot::chunks_of_class(
                comps.subrange(0, i), ComponentClass::Mutate, new_e, floor, system_tick);
            let entry = m.spec_mutations().last();
            &&& m.spec_mutations().len() == base_mutations.len() + 1
            &&& entry.1.len() == mutates.len()
            &&& forall|j: int| 0 <= j < mutates.len()
                ==> (#[trigger] entry.1[j]).select(data)
                    == chunk_bytes(mutates[j].0, mutates[j].1)
        }),
    ensures
        m.spec_entity_written() ==> ({
            let mutates = crate::snapshot::chunks_of_class(
                comps.subrange(0, i), ComponentClass::Mutate, new_e, floor, system_tick);
            let entry = m.spec_mutations().last();
            &&& entry.1.len() == mutates.len()
            &&& forall|j: int| 0 <= j < mutates.len()
                ==> (#[trigger] entry.1[j]).select(data + ext)
                    == chunk_bytes(mutates[j].0, mutates[j].1)
        }),
{
    if m.spec_entity_written() {
        let mutates = crate::snapshot::chunks_of_class(
            comps.subrange(0, i), ComponentClass::Mutate, new_e, floor, system_tick);
        let entry = m.spec_mutations().last();
        assert(m.spec_mutations().len() > 0);
        assert forall|j: int| 0 <= j < mutates.len() implies
            (#[trigger] entry.1[j]).select(data + ext)
                == chunk_bytes(mutates[j].0, mutates[j].1) by {
            assert(entry == m.spec_mutations()[m.spec_mutations().len() - 1]);
            assert(entry.1[j].valid_for(data));
            crate::buffer::lemma_select_stable(entry.1[j], data, ext);
        }
    }
}

/// The finished messages for one client after a pass.
pub struct ClientUpdate {
    pub client_id: ClientId,
    /// The serialized change message, when it carries anything.
    pub change: Option<Vec<u8>>,
    /// The serialized mutate message, when it carries anything.
    pub mutate: Option<Vec<u8>>,
    /// Finalization failure of this client's change message; it aborts
    /// only this client's message, never the whole pass.
    pub error: Option<SerializeError>,
}

/// The tracker despawns one client receives, in order: the first
/// occurrence of each entity the client still tracked when the pass began.
pub open spec fn tracker_despawn_list(
    client: crate::replicated_clients::ReplicatedClient,
    ds: Seq<DespawnEntry>,
) -> Seq<Entity>
    decreases ds.len(),
{
    if ds.len() == 0 {
        Seq::empty()
    } else {
        let init = tracker_despawn_list(client, ds.drop_last());
        let last = ds[ds.len() - 1];
        if client.spec_floor(last.entity) is Some && (forall|j: int|
            0 <= j < ds.len() - 1 ==> (#[trigger] ds[j]).entity != last.entity) {
            init.push(last.entity)
        } else {
            init
        }
    }
}

/// The list never outgrows the tracker's record.
pub proof fn lemma_tracker_list_len(
    client: crate::replicated_clients::ReplicatedClient,
    ds: Seq<DespawnEntry>,
)
    ensures
        tracker_despawn_list(client, ds).len() <= ds.len(),
    decreases ds.len(),
{
    if ds.len() > 0 {
        lemma_tracker_list_len(client, ds.drop_last());
    }
}

/// Every despawn the tracker recorded whose entity the snapshot no longer
/// holds has left this client's floor-tick map.
pub open spec fn despawns_purged(
    client: crate::replicated_clients::ReplicatedClient,
    despawns: Seq<DespawnEntry>,
    entities: Seq<EntitySnapshot>,
) -> bool {
    forall|d: int| #![trigger despawns[d]] {
        &&& 0 <= d < despawns.len()
        &&& forall|k: int| 0 <= k < entities.len()
            ==> (#[trigger] entities[k]).entity != despawns[d].entity
    } ==> client.spec_floor(despawns[d].entity) is None
}

/// A cleared message pair, as the pass starts from.
pub open spec fn pair_cleared(p: (ChangeMessage, MutateMessage)) -> bool {
    &&& p.0.spec_mappings().0 == (ByteRange { start: 0usize, end: 0usize })
    &&& p.0.spec_mappings().1 == 0
    &&& p.0.spec_despawns().len() == 0
    &&& p.0.spec_despawns_len() == 0
    &&& p.0.spec_removals().len() == 0
    &&& p.0.spec_changes().len() == 0
    &&& !p.0.spec_entity_written()
    &&& p.1.spec_mutations().len() == 0
    &&& !p.1.spec_entity_written()
}

/// Runs one whole collection pass.
///
/// For every connected client, in this order: the client's queued entity
/// mappings are consumed and written first; despawns of entities the
/// client tracked, and synthetic despawns for entities whose visibility it
/// lost, follow; then component removals for tracked visible entities;
/// then every snapshot entity's changes and mutations through
/// [`collect_entity`], raising the floor of structurally changed entities
/// at once. A nonempty mutate message is registered in the client's
/// in-flight records under the index it carries; a nonempty change message
/// advances the client's init tick. The serialized messages for every
/// client are returned; the transport sends them outside this crate.
///
/// A change message that exceeds the per-message limits fails
/// finalization for its client alone: the error is reported in that
/// client's slot and the pass goes on with the other clients.
///
/// Beyond preserving every structure's invariants, the pass guarantees
/// slot identity, that every tracker despawn of an entity absent from the
/// snapshot leaves every client's floor-tick map, that a client's init
/// tick advances exactly when it got a change message, and that each
/// client's despawns section holds exactly the entity encodings of its
/// tracked tracker despawns followed by its lost-visibility entities.
pub fn replicate_pass(
    messages: &mut ReplicationMessages,
    serialized: &mut ReplicationBuffer,
    clients: &mut ReplicatedClients,
    entity_map: &mut ClientEntityMap,
    entities: &Vec<EntitySnapshot>,
    removals: &Vec<RemovalEntry>,
    despawns: &Vec<DespawnEntry>,
    server_tick: RepliconTick,
    system_tick: Tick,
    timestamp: u64,
) -> (r: Vec<ClientUpdate>)
    requires
        old(messages).inv(),
        old(clients).wf(),
        old(entity_map).wf(),
    ensures
        final(messages).inv(),
        final(serialized).wf(),
        final(clients).wf(),
        final(entity_map).wf(),
        final(clients).spec_clients().len() == old(clients).spec_clients().len(),
        r@.len() == old(clients).spec_clients().len(),
        // Each slot answers for the client that held it when the pass
        // began.
        forall|i: int| 0 <= i < r@.len()
            ==> (#[trigger] r@[i]).client_id == old(clients).spec_clients()[i].spec_id(),
        // Every recorded despawn of an entity no longer in the snapshot
        // leaves every client's floor-tick map.
        forall|i: int| 0 <= i < r@.len()
            ==> despawns_purged(
            #[trigger] final(clients).spec_clients()[i], despawns@, entities@),
        // A client that got a change message will confirm this tick; one
        // that got none keeps its previous init tick.
        forall|i: int| 0 <= i < r@.len() ==> ((#[trigger] r@[i]).change is Some
            ==> final(clients).spec_clients()[i].spec_init_tick() == server_tick),
        forall|i: int| 0 <= i < r@.len() ==> ((#[trigger] r@[i]).change is None
            ==> final(clients).spec_clients()[i].spec_init_tick()
                == old(clients).spec_clients()[i].spec_init_tick()),
        // Each client's despawns section flattens to exactly the entity
        // encodings of the tracker despawns it still tracked, then of the
        // entities whose visibility it lost this tick.
        forall|i: int| 0 <= i < r@.len() && despawns@.len()
            + old(clients).spec_clients()[i].spec_visibility().lost_list().len() <= usize::MAX
            ==> crate::buffer::ranges_bytes(
                (#[trigger] final(messages).spec_pair(i)).0.spec_despawns(),
                final(serialized).data(),
            ) == crate::message_parse::entities_wire_bytes(
                tracker_despawn_list(old(clients).spec_clients()[i], despawns@)
                    + old(clients).spec_clients()[i].spec_visibility().lost_list(),
            ),
{
    serialized.clear();
    let n = clients.len();
    messages.reset(n);
    let tick_range = serialized.write_tick(server_tick);
    let mut out: Vec<ClientUpdate> = Vec::new();
    let mut ci: usize = 0;
    while ci < n
        invariant
            messages.inv(),
            messages.spec_len() == n,
            serialized.wf(),
            clients.wf(),
            entity_map.wf(),
            clients.spec_clients().len() == n,
            clients.spec_clients().len() == old(clients).spec_clients().len(),
            ci <= n,
            tick_range.valid_for(serialized.data()),
            out@.len() == ci,
            forall|j: int| ci <= j < n ==> pair_cleared(#[trigger] messages.spec_pair(j)),
            forall|j: int| ci <= j < n
                ==> #[trigger] clients.spec_clients()[j] == old(clients).spec_clients()[j],
            forall|j: int| 0 <= j < ci ==> despawns_purged(
                #[trigger] clients.spec_clients()[j], despawns@, entities@),
            forall|j: int| 0 <= j < ci ==> ((#[trigger] out@[j]).change is Some
                ==> clients.spec_clients()[j].spec_init_tick() == server_tick),
            forall|j: int| 0 <= j < ci ==> ((#[trigger] out@[j]).change is None
                ==> clients.spec_clients()[j].spec_init_tick()
                    == old(clients).spec_clients()[j].spec_init_tick()),
            forall|j: int| 0 <= j < ci
                ==> (#[trigger] out@[j]).client_id == old(clients).spec_clients()[j].spec_id(),
            forall|j: int| 0 <= j < ci ==> crate::buffer::ranges_valid(
                (#[trigger] messages.spec_pair(j)).0.spec_despawns(), serialized.data()),
            forall|j: int| 0 <= j < ci && despawns@.len()
                + old(clients).spec_clients()[j].spec_visibility().lost_list().len()
                    <= usize::MAX
                ==> crate::buffer::ranges_bytes(
                    (#[trigger] messages.spec_pair(j)).0.spec_despawns(), serialized.data())
                    == crate::message_parse::entities_wire_bytes(
                    tracker_despawn_list(old(clients).spec_clients()[j], despawns@)
                        + old(clients).spec_clients()[j].spec_visibility().lost_list()),
        decreases n - ci,
    {
        let ghost clients_pre = *clients;
        let ghost iter0 = serialized.data();
        let client = clients.client_at_mut(ci);
        let client_id = client.id();
        let ghost init0 = client.spec_init_tick();
        let ghost client0 = clients_pre.spec_clients()[ci as int];
        let ghost hroom = despawns@.len()
            + client0.spec_visibility().lost_list().len() <= usize::MAX;
        let pair = messages.get_mut(ci);
        proof {
            assert(pair_cleared(*pair));
        }

        // Mappings come first so everything after can refer to them.
        let mappings = entity_map.take_mappings(client_id);
        if mappings.len() > 0 {
            let start = serialized.len();
            let mut mi: usize = 0;
            while mi < mappings.len()
                invariant
                    serialized.wf(),
                    start <= serialized.data().len(),
                    tick_range.valid_for(serialized.data()),
                    pair_cleared(*pair),
                    client.wf(),
                    client.spec_id() == client_id,
                    client.spec_init_tick() == init0,
                    *client == clients_pre.spec_clients()[ci as int],
                    iter0.len() <= serialized.data().len(),
                    serialized.data().subrange(0, iter0.len() as int) == iter0,
                decreases mappings@.len() - mi,
            {
                let m = mappings[mi];
                serialized.write_entity(m.server_entity);
                serialized.write_entity(m.client_entity);
                mi = mi + 1;
                proof {
                    assert(serialized.data().subrange(0, iter0.len() as int) =~= iter0);
                }
            }
            let range = ByteRange { start, end: serialized.len() };
            pair.0.set_mappings(range, mappings.len());
        }
        proof {
            assert(pair.0.wf(serialized.data()));
            assert(pair.1.wf(serialized.data()));
        }

        // Despawns the host recorded, for entities this client tracked.
        let mut di: usize = 0;
        while di < despawns.len()
            invariant
                serialized.wf(),
                client.wf(),
                client.spec_id() == client_id,
                client.spec_init_tick() == init0,
                client.spec_visibility().lost_list()
                    == client0.spec_visibility().lost_list(),
                di <= despawns@.len(),
                tick_range.valid_for(serialized.data()),
                iter0.len() <= serialized.data().len(),
                serialized.data().subrange(0, iter0.len() as int) == iter0,
                pair.0.inv(),
                pair.0.wf(serialized.data()),
                pair.1.inv(),
                pair.1.wf(serialized.data()),
                pair.0.spec_changes().len() == 0,
                pair.1.spec_mutations().len() == 0,
                !pair.0.spec_entity_written(),
                !pair.1.spec_entity_written(),
                pair.0.spec_removals().len() == 0,
                forall|k: int| 0 <= k < di
                    ==> client.spec_floor((#[trigger] despawns@[k]).entity) is None,
                forall|x: Entity| (forall|j: int| 0 <= j < di
                    ==> (#[trigger] despawns@[j]).entity != x)
                    ==> client.spec_floor(x) == client0.spec_floor(x),
                pair.0.spec_despawns_len()
                    == tracker_despawn_list(client0, despawns@.subrange(0, di as int)).len(),
                crate::buffer::ranges_bytes(pair.0.spec_despawns(), serialized.data())
                    == crate::message_parse::entities_wire_bytes(
                    tracker_despawn_list(client0, despawns@.subrange(0, di as int))),
            decreases despawns@.len() - di,
        {
            let entry = despawns[di];
            let ghost prefix = despawns@.subrange(0, di as int);
            let ghost plist = tracker_despawn_list(client0, prefix);
            proof {
                assert(despawns@.subrange(0, di + 1).drop_last() =~= prefix);
                assert(despawns@.subrange(0, di + 1)[di as int] == despawns@[di as int]);
                lemma_tracker_list_len(client0, prefix);
            }
            if client.get_change_tick(entry.entity).is_some() {
                proof {
                    assert(client0.spec_floor(entry.entity) is Some) by {
                        if exists|j: int| 0 <= j < di
                            && (#[trigger] despawns@[j]).entity == entry.entity {
                            let j = choose|j: int| 0 <= j < di
                                && (#[trigger] despawns@[j]).entity == entry.entity;
                            assert(client.spec_floor(despawns@[j].entity) is None);
                        }
                    }
                    assert(tracker_despawn_list(client0, despawns@.subrange(0, di + 1))
                        == plist.push(entry.entity));
                    crate::message_parse::lemma_entities_wire_snoc(plist, entry.entity);
                    assert(pair.0.spec_despawns_len() <= di);
                    assert(pair.0.spec_despawns_len() < usize::MAX);
                }
                let ghost data_pre = serialized.data();
                let range = serialized.write_entity(entry.entity);
                proof {
                    lemma_change_wf_extend(pair.0, data_pre, serialized.data());
                    lemma_mutate_wf_extend(pair.1, data_pre, serialized.data());
                    assert(serialized.data().subrange(0, iter0.len() as int) =~= iter0);
                    crate::buffer::lemma_ranges_bytes_stable(
                        pair.0.spec_despawns(), data_pre,
                        crate::entity::entity_bytes(entry.entity));
                    assert(serialized.data()
                        =~= data_pre + crate::entity::entity_bytes(entry.entity));
                }
                let ghost despawns_pre = pair.0.spec_despawns();
                pair.0.add_despawn(range);
                proof {
                    assert(crate::buffer::ranges_valid(despawns_pre, serialized.data()));
                    assert(range.valid_for(serialized.data()));
                    assert(pair.0.wf(serialized.data()));
                }
                client.remove_despawned(entry.entity);
            } else {
                proof {
                    assert(entry == despawns@[di as int]);
                    assert(client.spec_floor(entry.entity) is None);
                    assert(client.spec_floor(despawns@[di as int].entity) is None);
                    let ds = despawns@.subrange(0, di + 1);
                    assert(ds.len() == di + 1);
                    assert(ds[di as int] == despawns@[di as int]);
                    assert(ds.drop_last() =~= prefix);
                    if client0.spec_floor(ds[di as int].entity) is Some && (forall|j: int|
                        0 <= j < ds.len() - 1
                            ==> (#[trigger] ds[j]).entity != ds[di as int].entity) {
                        assert forall|j: int| 0 <= j < di implies
                            (#[trigger] despawns@[j]).entity
                                != despawns@[di as int].entity by {
                            assert(ds[j] == despawns@[j]);
                        }
                        assert(client.spec_floor(despawns@[di as int].entity)
                            == client0.spec_floor(despawns@[di as int].entity));
                        assert(false);
                    }
                    assert(tracker_despawn_list(client0, ds) == plist);
                }
            }
            proof {
                assert forall|x: Entity| (forall|j: int| 0 <= j < di + 1
                    ==> (#[trigger] despawns@[j]).entity != x)
                    implies client.spec_floor(x) == client0.spec_floor(x) by {
                    assert(despawns@[di as int].entity != x);
                }
            }
            di = di + 1;
        }
        proof {
            assert(despawns@.subrange(0, despawns@.len() as int) =~= despawns@);
        }

        // Entities this client just lost sight of leave as despawns too.
        let ghost tlist = tracker_despawn_list(client0, despawns@);
        proof {
            lemma_tracker_list_len(client0, despawns@);
        }
        let lost = client.drain_lost_visibility();
        let ghost lost0 = client0.spec_visibility().lost_list();
        proof {
            assert(lost@ == lost0);
        }
        let mut li: usize = 0;
        while li < lost.len()
            invariant
                serialized.wf(),
                client.wf(),
                client.spec_id() == client_id,
                client.spec_init_tick() == init0,
                li <= lost@.len(),
                lost@ == lost0,
                tlist == tracker_despawn_list(client0, despawns@),
                tlist.len() <= despawns@.len(),
                hroom == (despawns@.len() + lost0.len() <= usize::MAX),
                forall|k: int| 0 <= k < despawns@.len()
                    ==> client.spec_floor((#[trigger] despawns@[k]).entity) is None,
                tick_range.valid_for(serialized.data()),
                iter0.len() <= serialized.data().len(),
                serialized.data().subrange(0, iter0.len() as int) == iter0,
                pair.0.inv(),
                pair.0.wf(serialized.data()),
                pair.1.inv(),
                pair.1.wf(serialized.data()),
                pair.0.spec_changes().len() == 0,
                pair.1.spec_mutations().len() == 0,
                !pair.0.spec_entity_written(),
                !pair.1.spec_entity_written(),
                pair.0.spec_removals().len() == 0,
                hroom ==> pair.0.spec_despawns_len() == tlist.len() + li,
                hroom ==> crate::buffer::ranges_bytes(pair.0.spec_despawns(), serialized.data())
                    == crate::message_parse::entities_wire_bytes(
                    tlist + lost@.subrange(0, li as int)),
            decreases lost@.len() - li,
        {
            proof {
                assert(tlist + lost@.subrange(0, li + 1)
                    =~= (tlist + lost@.subrange(0, li as int)).push(lost@[li as int]));
                crate::message_parse::lemma_entities_wire_snoc(
                    tlist + lost@.subrange(0, li as int), lost@[li as int]);
                if hroom {
                    assert(tlist.len() + li < usize::MAX);
                }
            }
            if pair.0.despawns_len() < usize::MAX {
                let ghost data_pre = serialized.data();
                let range = serialized.write_entity(lost[li]);
                proof {
                    lemma_change_wf_extend(pair.0, data_pre, serialized.data());
                    lemma_mutate_wf_extend(pair.1, data_pre, serialized.data());
                    assert(serialized.data().subrange(0, iter0.len() as int) =~= iter0);
                    crate::buffer::lemma_ranges_bytes_stable(
                        pair.0.spec_despawns(), data_pre,
                        crate::entity::entity_bytes(lost@[li as int]));
                    assert(serialized.data()
                        =~= data_pre + crate::entity::entity_bytes(lost@[li as int]));
                }
                let ghost despawns_pre = pair.0.spec_despawns();
                pair.0.add_despawn(range);
                proof {
                    assert(crate::buffer::ranges_valid(despawns_pre, serialized.data()));
                    assert(pair.0.wf(serialized.data()));
                }
            } else {
                proof {
                    if hroom {
                        assert(false);
                    }
                }
            }
            li = li + 1;
        }
        proof {
            assert(lost@.subrange(0, lost@.len() as int) =~= lost@);
        }

        // Component removals for tracked, visible entities whose recorded
        // tick the client has not acknowledged yet.
        let mut ri: usize = 0;
        while ri < removals.len()
            invariant
                serialized.wf(),
                client.wf(),
                client.spec_id() == client_id,
                client.spec_init_tick() == init0,
                forall|k: int| 0 <= k < despawns@.len()
                    ==> client.spec_floor((#[trigger] despawns@[k]).entity) is None,
                iter0.len() <= serialized.data().len(),
                serialized.data().subrange(0, iter0.len() as int) == iter0,
                tlist == tracker_despawn_list(client0, despawns@),
                hroom == (despawns@.len() + lost0.len() <= usize::MAX),
                hroom ==> crate::buffer::ranges_bytes(
                    pair.0.spec_despawns(), serialized.data())
                    == crate::message_parse::entities_wire_bytes(tlist + lost0),
                tick_range.valid_for(serialized.data()),
                pair.0.inv(),
                pair.0.wf(serialized.data()),
                pair.1.inv(),
                pair.1.wf(serialized.data()),
                pair.0.spec_changes().len() == 0,
                pair.1.spec_mutations().len() == 0,
                !pair.0.spec_entity_written(),
                !pair.1.spec_entity_written(),
            decreases removals@.len() - ri,
        {
            let entry = &removals[ri];
            let owed = match client.get_change_tick(entry.entity) {
                Some(floor) => entry.tick.is_newer_than(floor, system_tick)
                    && client.visibility().is_visible(entry.entity),
                None => false,
            };
            if owed {
                let ghost data_pre = serialized.data();
                let entity_range = serialized.write_entity(entry.entity);
                let mut ids_bytes: Vec<u8> = Vec::new();
                let mut ii: usize = 0;
                while ii < entry.fn_ids.len()
                    decreases entry.fn_ids@.len() - ii,
                {
                    write_varint(&mut ids_bytes, entry.fn_ids[ii]);
                    ii = ii + 1;
                }
                let ids_range = serialized.write(ids_bytes.as_slice());
                proof {
                    lemma_change_wf_extend(pair.0, data_pre, serialized.data());
                    lemma_mutate_wf_extend(pair.1, data_pre, serialized.data());
                    assert(entity_range.valid_for(serialized.data()));
                }
                proof {
                    assert(serialized.data().subrange(0, iter0.len() as int) =~= iter0);
                    if hroom {
                        let grown = serialized.data().subrange(
                            data_pre.len() as int, serialized.data().len() as int);
                        assert(serialized.data() =~= data_pre + grown);
                        crate::buffer::lemma_ranges_bytes_stable(
                            pair.0.spec_despawns(), data_pre, grown);
                    }
                }
                let ghost removals_pre = pair.0.spec_removals();
                pair.0.add_removals(entity_range, entry.fn_ids.len(), ids_range);
                proof {
                    assert forall|k: int| 0 <= k < pair.0.spec_removals().len() implies {
                        &&& (#[trigger] pair.0.spec_removals()[k]).entity.valid_for(
                            serialized.data())
                        &&& pair.0.spec_removals()[k].fn_ids.valid_for(serialized.data())
                    } by {
                        if k < pair.0.spec_removals().len() - 1 {
                            assert(pair.0.spec_removals()[k] == removals_pre[k]);
                        }
                    }
                    assert(pair.0.wf(serialized.data()));
                }
            }
            ri = ri + 1;
        }

        // Changes and mutations for every snapshot entity.
        let mut mutated: Vec<Entity> = Vec::new();
        let mut ei: usize = 0;
        while ei < entities.len()
            invariant
                serialized.wf(),
                client.wf(),
                client.spec_id() == client_id,
                client.spec_init_tick() == init0,
                forall|k: int| #![trigger despawns@[k]] {
                    &&& 0 <= k < despawns@.len()
                    &&& forall|q: int| 0 <= q < entities@.len()
                        ==> (#[trigger] entities@[q]).entity != despawns@[k].entity
                } ==> client.spec_floor(despawns@[k].entity) is None,
                iter0.len() <= serialized.data().len(),
                serialized.data().subrange(0, iter0.len() as int) == iter0,
                tlist == tracker_despawn_list(client0, despawns@),
                hroom == (despawns@.len() + lost0.len() <= usize::MAX),
                hroom ==> crate::buffer::ranges_bytes(
                    pair.0.spec_despawns(), serialized.data())
                    == crate::message_parse::entities_wire_bytes(tlist + lost0),
                tick_range.valid_for(serialized.data()),
                pair.0.inv(),
                pair.0.wf(serialized.data()),
                pair.1.inv(),
                pair.1.wf(serialized.data()),
            decreases entities@.len() - ei,
        {
            let snapshot = &entities[ei];
            let visibility_state = client.visibility().state(snapshot.entity);
            let floor = client.get_change_tick(snapshot.entity);
            let ghost data_pre = serialized.data();
            let structural = collect_entity(
                &mut pair.0,
                &mut pair.1,
                serialized,
                visibility_state,
                floor,
                snapshot,
                system_tick,
            );
            proof {
                assert(serialized.data().subrange(0, iter0.len() as int) =~= iter0);
                if hroom {
                    let grown = serialized.data().subrange(
                        data_pre.len() as int, serialized.data().len() as int);
                    assert(serialized.data() =~= data_pre + grown);
                    crate::buffer::lemma_ranges_bytes_stable(
                        pair.0.spec_despawns(), data_pre, grown);
                }
            }
            if structural {
                client.set_change_tick(snapshot.entity, system_tick);
            } else if pair.1.mutations_written() {
                mutated.push(snapshot.entity);
            }
            ei = ei + 1;
        }

        // A change message that finalizes advances the tick the client
        // will confirm; one that exceeds the limits fails for this client
        // alone.
        let mut error: Option<SerializeError> = None;
        let change_bytes = if !pair.0.is_empty() {
            match pair.0.serialize(serialized, tick_range) {
                Ok(bytes) => {
                    client.set_init_tick(server_tick);
                    Some(bytes)
                },
                Err(e) => {
                    error = Some(e);
                    None
                },
            }
        } else {
            None
        };

        // A mutate message opens with the tick of the last structural
        // change this client saw, so the client holds it until its init
        // tick catches up, and is registered for acknowledgment under the
        // index it carries.
        let mutate_bytes = if !pair.1.is_empty() {
            let ghost data_pre = serialized.data();
            let init_range = serialized.write_tick(client.init_tick());
            proof {
                lemma_mutate_wf_extend(pair.1, data_pre, serialized.data());
                lemma_change_wf_extend(pair.0, data_pre, serialized.data());
                assert(serialized.data().subrange(0, iter0.len() as int) =~= iter0);
                if hroom {
                    let grown = serialized.data().subrange(
                        data_pre.len() as int, serialized.data().len() as int);
                    assert(serialized.data() =~= data_pre + grown);
                    crate::buffer::lemma_ranges_bytes_stable(
                        pair.0.spec_despawns(), data_pre, grown);
                }
            }
            let index = client.register_update(system_tick, timestamp, mutated);
            Some(pair.1.serialize(serialized, init_range, index))
        } else {
            None
        };

        // This tick's visibility transitions are consumed.
        let vis = client.visibility_mut();
        vis.update();
        proof {
            crate::replicated_clients::lemma_clients_update_wf(
                clients_pre,
                *clients,
                ci as int,
                clients.spec_clients()[ci as int],
            );
            assert(clients_pre.spec_clients()[ci as int]
                == old(clients).spec_clients()[ci as int]);
            assert(client_id == old(clients).spec_clients()[ci as int].spec_id());
            assert(init0 == old(clients).spec_clients()[ci as int].spec_init_tick());
            assert(despawns_purged(
                clients.spec_clients()[ci as int], despawns@, entities@)) by {
                assert forall|d: int| #![trigger despawns@[d]] {
                    &&& 0 <= d < despawns@.len()
                    &&& forall|k: int| 0 <= k < entities@.len()
                        ==> (#[trigger] entities@[k]).entity != despawns@[d].entity
                } implies clients.spec_clients()[ci as int].spec_floor(
                    despawns@[d].entity) is None by {}
            }
            if change_bytes is Some {
                assert(clients.spec_clients()[ci as int].spec_init_tick() == server_tick);
            } else {
                assert(clients.spec_clients()[ci as int].spec_init_tick() == init0);
            }
            let grown = serialized.data().subrange(
                iter0.len() as int, serialized.data().len() as int);
            assert(serialized.data() =~= iter0 + grown) by {
                assert forall|q: int| 0 <= q < serialized.data().len() implies
                    serialized.data()[q] == (iter0 + grown)[q] by {
                    if q < iter0.len() {
                        assert(serialized.data().subrange(0, iter0.len() as int)[q]
                            == serialized.data()[q]);
                    } else {
                        assert(grown[q - iter0.len()] == serialized.data()[q]);
                    }
                }
            }
            assert forall|j: int| 0 <= j < ci + 1 implies crate::buffer::ranges_valid(
                (#[trigger] messages.spec_pair(j)).0.spec_despawns(),
                serialized.data(),
            ) by {
                if j < ci {
                    crate::buffer::lemma_ranges_bytes_stable(
                        messages.spec_pair(j).0.spec_despawns(), iter0, grown);
                } else {
                    assert(messages.spec_pair(ci as int).0.wf(serialized.data()));
                }
            }
            assert forall|j: int| 0 <= j < ci + 1 && despawns@.len()
                + old(clients).spec_clients()[j].spec_visibility().lost_list().len()
                    <= usize::MAX
                implies crate::buffer::ranges_bytes(
                (#[trigger] messages.spec_pair(j)).0.spec_despawns(), serialized.data())
                == crate::message_parse::entities_wire_bytes(
                tracker_despawn_list(old(clients).spec_clients()[j], despawns@)
                    + old(clients).spec_clients()[j].spec_visibility().lost_list()) by {
                if j < ci {
                    crate::buffer::lemma_ranges_bytes_stable(
                        messages.spec_pair(j).0.spec_despawns(), iter0, grown);
                } else {
                    assert(client0 == old(clients).spec_clients()[ci as int]);
                    assert(lost0
                        == old(clients).spec_clients()[ci as int].spec_visibility()
                            .lost_list());
                }
            }
        }
        out.push(ClientUpdate { client_id, change: change_bytes, mutate: mutate_bytes, error });
        ci = ci + 1;
    }
    out
}

} // verus!
