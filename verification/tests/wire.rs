//! Wire-format tests: varints, entities, ticks and whole change messages.

use bincode::Options;
use integer_encoding::VarInt;
use replicon::buffer::{ByteRange, ReplicationBuffer};
use replicon::change_message::{ChangeMessage, ComponentRemovals, SerializeError};
use replicon::entity::{read_entity, write_entity, Entity};
use replicon::codec::{read_tick, write_tick};
use replicon::mutate_message::MutateMessage;
use replicon::server::{tick_interval_ms, TickPolicy};
use replicon::tick::RepliconTick;
use replicon::varint::{read_varint, required_space, write_varint};
use replicon::visibility::Visibility;

#[test]
fn varint_matches_reference_encoder() {
    let values: [u64; 9] = [0, 1, 127, 128, 300, 16383, 16384, u32::MAX as u64, u64::MAX];
    for &value in values.iter() {
        let mut ours: Vec<u8> = Vec::new();
        write_varint(&mut ours, value);
        let reference = value.encode_var_vec();
        assert_eq!(ours, reference);
        assert_eq!(required_space(value), reference.len());
    }
}

#[test]
fn varint_round_trip() {
    let values: [u64; 6] = [0, 127, 128, 999, 123456789, u64::MAX];
    let mut bytes: Vec<u8> = Vec::new();
    for &value in values.iter() {
        write_varint(&mut bytes, value);
    }
    let mut pos = 0usize;
    for &value in values.iter() {
        let (decoded, next) = read_varint(&bytes, pos).unwrap();
        assert_eq!(decoded, value);
        pos = next;
    }
    assert_eq!(pos, bytes.len());
}

#[test]
fn varint_rejects_truncation() {
    let mut bytes: Vec<u8> = Vec::new();
    write_varint(&mut bytes, 300);
    bytes.pop();
    assert!(read_varint(&bytes, 0).is_none());
}

#[test]
fn entity_round_trip() {
    let entities = [
        Entity::new(0, 0),
        Entity::new(1, 0),
        Entity::new(7, 3),
        Entity::new(u32::MAX, u32::MAX),
    ];
    for &entity in entities.iter() {
        let mut bytes: Vec<u8> = Vec::new();
        write_entity(&mut bytes, entity);
        let (decoded, end) = read_entity(&bytes, 0).unwrap();
        assert_eq!(decoded, entity);
        assert_eq!(end, bytes.len());
    }
}

#[test]
fn entity_generation_zero_is_one_varint() {
    let mut bytes: Vec<u8> = Vec::new();
    write_entity(&mut bytes, Entity::new(5, 0));
    assert_eq!(bytes, vec![10]);
    let mut with_generation: Vec<u8> = Vec::new();
    write_entity(&mut with_generation, Entity::new(5, 1));
    assert_eq!(with_generation, vec![11, 1]);
}

#[test]
fn tick_codec_matches_bincode() {
    let values: [u32; 7] = [0, 1, 250, 251, 0xFFFF, 0x10000, u32::MAX];
    for &value in values.iter() {
        let mut ours: Vec<u8> = Vec::new();
        write_tick(&mut ours, RepliconTick::new(value));
        let reference = bincode::options().serialize(&value).unwrap();
        assert_eq!(ours, reference);
        let (decoded, end) = read_tick(&ours, 0).unwrap();
        assert_eq!(decoded, value);
        assert_eq!(end, ours.len());
    }
}

#[test]
fn max_serialized_size() {
    let max = bincode::options().serialized_size(&u32::MAX).unwrap();
    assert_eq!(max as usize, RepliconTick::MAX_SERIALIZED_SIZE);
    let mut bytes: Vec<u8> = Vec::new();
    write_tick(&mut bytes, RepliconTick::new(u32::MAX));
    assert_eq!(bytes.len(), RepliconTick::MAX_SERIALIZED_SIZE);
}

#[test]
fn tick_comparsion() {
    assert_eq!(RepliconTick::new(0), RepliconTick::new(0));
    assert!(RepliconTick::new(0) < RepliconTick::new(1));
    assert!(RepliconTick::new(0) > RepliconTick::new(u32::MAX));
}

#[test]
fn change_message_round_trip() {
    let mut serialized = ReplicationBuffer::new();
    let mut change = ChangeMessage::new();
    let mut mutate = MutateMessage::new();

    let tick = RepliconTick::new(42);
    let tick_range = serialized.write_tick(tick);

    let despawned = Entity::new(9, 2);
    let despawn_range = serialized.write_entity(despawned);
    change.add_despawn(despawn_range);

    let removed_from = Entity::new(4, 0);
    let entity_range = serialized.write_entity(removed_from);
    let mut ids: Vec<u8> = Vec::new();
    write_varint(&mut ids, 7);
    let ids_range = serialized.write(&ids);
    change.add_removals(entity_range, 1, ids_range);

    let changed = Entity::new(5, 1);
    let changed_range = serialized.write_entity(changed);
    change.start_entity_changes(Visibility::Visible);
    change.add_changed_entity(changed_range);
    let mut chunk: Vec<u8> = Vec::new();
    write_varint(&mut chunk, 3);
    write_varint(&mut chunk, 2);
    chunk.push(0xAB);
    chunk.push(0xCD);
    let chunk_range = serialized.write(&chunk);
    change.add_inserted_component(chunk_range);
    change.take_mutations(&mut mutate);

    let bytes = change.serialize(&serialized, tick_range).unwrap();
    let parsed = replicon::message_parse::read_change_message(&bytes)
        .expect("a serialized message should parse back");
    assert_eq!(parsed.tick, tick);
    assert!(parsed.mappings.is_empty());
    assert_eq!(parsed.despawns, vec![despawned]);
    assert_eq!(parsed.removals.len(), 1);
    assert_eq!(parsed.removals[0].0, removed_from);
    assert_eq!(parsed.removals[0].1, vec![7]);
    assert_eq!(parsed.changes.len(), 1);
    assert_eq!(parsed.changes[0].0, changed);
    assert_eq!(parsed.changes[0].1, vec![(3, vec![0xAB, 0xCD])]);
}

#[test]
fn adjacent_despawn_chunks_merge_without_changing_bytes() {
    let mut serialized = ReplicationBuffer::new();
    let mut change = ChangeMessage::new();
    let tick_range = serialized.write_tick(RepliconTick::new(1));

    let first = serialized.write_entity(Entity::new(1, 0));
    let second = serialized.write_entity(Entity::new(2, 0));
    assert_eq!(first.end, second.start);
    change.add_despawn(first);
    change.add_despawn(second);

    let bytes = change.serialize(&serialized, tick_range).unwrap();
    let parsed = replicon::message_parse::read_change_message(&bytes).unwrap();
    assert_eq!(parsed.despawns, vec![Entity::new(1, 0), Entity::new(2, 0)]);
}

#[test]
fn oversized_section_is_rejected() {
    let mut serialized = ReplicationBuffer::new();
    let mut change = ChangeMessage::new();
    let tick_range = serialized.write_tick(RepliconTick::new(1));
    let range = serialized.write_entity(Entity::new(1, 0));
    let mut count = 0usize;
    while count < 65536 {
        // Non-adjacent ranges cannot merge, so each add keeps its entry.
        change.add_despawn(ByteRange::new(range.start, range.end));
        change.add_despawn(ByteRange::new(range.start, range.start));
        count += 2;
    }
    assert_eq!(change.serialize(&serialized, tick_range), Err(SerializeError::SizeLimit));
}

#[test]
fn fold_leaves_entity_written_flag_alone() {
    let mut serialized = ReplicationBuffer::new();
    let mut change = ChangeMessage::new();
    let mut mutate = MutateMessage::new();

    let entity_range = serialized.write_entity(Entity::new(1, 0));
    mutate.start_entity_mutations();
    mutate.add_mutated_entity(entity_range);
    let chunk = serialized.write(&[1, 2]);
    mutate.add_mutated_component(chunk);

    // Folding mutations into the change message is not a call of
    // add_changed_entity: the flag keeps reporting that none happened.
    change.start_entity_changes(Visibility::Visible);
    change.take_mutations(&mut mutate);
    assert!(!change.entity_written());
    assert!(mutate.is_empty());
    assert!(!change.is_empty());
}

#[test]
fn mutate_message_round_trip() {
    let mut serialized = ReplicationBuffer::new();
    let mut mutate = MutateMessage::new();
    let tick = RepliconTick::new(8);
    let tick_range = serialized.write_tick(tick);

    let entity = Entity::new(3, 1);
    let entity_range = serialized.write_entity(entity);
    mutate.start_entity_mutations();
    mutate.add_mutated_entity(entity_range);
    let mut chunk: Vec<u8> = Vec::new();
    write_varint(&mut chunk, 11);
    write_varint(&mut chunk, 1);
    chunk.push(0x5A);
    let chunk_range = serialized.write(&chunk);
    mutate.add_mutated_component(chunk_range);

    let bytes = mutate.serialize(&serialized, tick_range, 17);
    let parsed = replicon::message_parse::read_mutate_message(&bytes)
        .expect("a serialized mutate message should parse back");
    assert_eq!(parsed.tick, tick);
    assert_eq!(parsed.index, 17);
    assert_eq!(parsed.entities.len(), 1);
    assert_eq!(parsed.entities[0].0, entity);
    assert_eq!(parsed.entities[0].1, vec![(11, vec![0x5A])]);
}

#[test]
fn write_once_cache_reuses_bytes() {
    let mut buffer = ReplicationBuffer::new();
    let first = buffer.get_or_write(&[1, 2, 3]);
    let again = buffer.get_or_write(&[1, 2, 3]);
    assert_eq!(first, again);
    assert_eq!(buffer.len(), 3);

    // Closing the write makes the next call serialize anew.
    buffer.end_write();
    let fresh = buffer.get_or_write(&[1, 2, 3]);
    assert_ne!(first, fresh);
    assert_eq!(buffer.len(), 6);

    let flat = buffer.iter_ranges(&vec![first, fresh]);
    assert_eq!(flat, vec![1, 2, 3, 1, 2, 3]);

    buffer.clear();
    assert_eq!(buffer.len(), 0);
}

#[test]
fn removals_entry_size() {
    let entry = ComponentRemovals {
        entity: ByteRange::new(0, 2),
        ids_len: 300,
        fn_ids: ByteRange::new(2, 6),
    };
    // Two entity bytes, a two-byte count varint, four identifier bytes.
    assert_eq!(entry.size(), 8);
}

#[test]
fn tick_rate_interval() {
    assert_eq!(tick_interval_ms(TickPolicy::MaxTickRate(30)), Some(33));
    assert_eq!(tick_interval_ms(TickPolicy::MaxTickRate(0)), None);
    assert_eq!(tick_interval_ms(TickPolicy::EveryFrame), None);
    assert_eq!(tick_interval_ms(TickPolicy::Manual), None);
}

#[test]
fn ack_round_trip() {
    let mut bytes: Vec<u8> = Vec::new();
    replicon::codec::write_ack(&mut bytes, RepliconTick::new(70000), 513);
    let (tick, index) = replicon::codec::read_ack(&bytes).unwrap();
    assert_eq!(tick, RepliconTick::new(70000));
    assert_eq!(index, 513);

    // Trailing garbage makes the acknowledgment invalid.
    bytes.push(0);
    assert!(replicon::codec::read_ack(&bytes).is_none());
}

#[test]
fn malformed_message_is_dropped() {
    assert!(replicon::message_parse::read_change_message(&[]).is_none());
    assert!(replicon::message_parse::read_change_message(&[0xFF, 1]).is_none());
    assert!(replicon::message_parse::read_mutate_message(&[252, 0]).is_none());
}
