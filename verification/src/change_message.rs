//! The per-client change message: ordered, reliable structural updates.
//!
//! One change message per client per tick carries entity mappings, despawns,
//! component removals and component insertions, as ranges into the shared
//! serialized-data arena. Sections appear in that fixed order so a client
//! never reads component data before the entity it refers to exists.

use vstd::prelude::*;
use crate::buffer::{
    lemma_ranges_bytes_push, ranges_bytes, ranges_valid, ByteRange, ReplicationBuffer,
};
use crate::varint::{required_space, varint_bytes, write_varint};
use crate::visibility::Visibility;

verus! {

/// Which optional sections a change message carries, encoded as one byte at
/// the front of the message. Bit values follow the canonical section order:
/// mappings, despawns, removals, changes.
#[derive(Clone, Copy, Debug, Default, PartialEq, Eq, Structural)]
pub struct ChangeMessageFlags {
    pub mappings: bool,
    pub despawns: bool,
    pub removals: bool,
    pub changes: bool,
}

impl ChangeMessageFlags {
    pub open spec fn spec_bits(self) -> u8 {
        ((if self.mappings { 1int } else { 0int }) + (if self.despawns { 2int } else { 0int })
            + (if self.removals { 4int } else { 0int })
            + (if self.changes { 8int } else { 0int })) as u8
    }

    /// The flag byte that opens the message.
    pub fn bits(self) -> (r: u8)
        ensures
            r == self.spec_bits(),
    {
        let mut r: u8 = 0;
        if self.mappings {
            r = r + 1;
        }
        if self.despawns {
            r = r + 2;
        }
        if self.removals {
            r = r + 4;
        }
        if self.changes {
            r = r + 8;
        }
        r
    }
}

/// One entity's component removals: its serialized identity, how many
/// component identifiers follow, and the chunk holding them.
#[derive(Clone, Copy, Debug, PartialEq, Eq, Structural)]
pub struct ComponentRemovals {
    pub entity: ByteRange,
    pub ids_len: usize,
    pub fn_ids: ByteRange,
}

impl ComponentRemovals {
    /// Bytes this entry takes inside the removals section.
    pub fn size(&self) -> (r: usize)
        requires
            self.entity.start <= self.entity.end,
            self.fn_ids.start <= self.fn_ids.end,
            self.entity.spec_len() + varint_bytes(self.ids_len as nat).len()
                + self.fn_ids.spec_len() <= usize::MAX,
        ensures
            r == self.entity.spec_len() + varint_bytes(self.ids_len as nat).len()
                + self.fn_ids.spec_len(),
    {
        self.entity.len() + required_space(self.ids_len as u64) + self.fn_ids.len()
    }
}

/// One entity's component insertions: its serialized identity and the chunks
/// holding each inserted component.
#[derive(Debug)]
pub struct ComponentChanges {
    pub entity: ByteRange,
    pub components: Vec<ByteRange>,
}

/// Wire bytes of one removals entry.
pub open spec fn removal_entry_bytes(r: ComponentRemovals, data: Seq<u8>) -> Seq<u8> {
    r.entity.select(data) + varint_bytes(r.ids_len as nat) + r.fn_ids.select(data)
}

/// Wire bytes of the removals section body, in order.
pub open spec fn removals_bytes(rs: Seq<ComponentRemovals>, data: Seq<u8>) -> Seq<u8>
    decreases rs.len(),
{
    if rs.len() == 0 {
        Seq::empty()
    } else {
        removal_entry_bytes(rs[0], data) + removals_bytes(rs.drop_first(), data)
    }
}

pub proof fn lemma_removals_bytes_push(rs: Seq<ComponentRemovals>, data: Seq<u8>, r: ComponentRemovals)
    ensures
        removals_bytes(rs.push(r), data) == removals_bytes(rs, data) + removal_entry_bytes(r, data),
    decreases rs.len(),
{
    if rs.len() == 0 {
        let p = rs.push(r);
        assert(p[0] == r);
        assert(p.drop_first() =~= Seq::<ComponentRemovals>::empty());
        assert(removals_bytes(p, data)
            == removal_entry_bytes(p[0], data) + removals_bytes(p.drop_first(), data));
        assert(removals_bytes(p.drop_first(), data) =~= Seq::<u8>::empty());
        assert(removal_entry_bytes(r, data) + Seq::<u8>::empty()
            =~= removal_entry_bytes(r, data));
        assert(removals_bytes(rs, data) + removal_entry_bytes(r, data)
            =~= removal_entry_bytes(r, data));
    } else {
        assert(rs.push(r).drop_first() =~= rs.drop_first().push(r));
        assert(rs.push(r)[0] == rs[0]);
        lemma_removals_bytes_push(rs.drop_first(), data, r);
        assert(removals_bytes(rs.push(r), data)
            =~= removals_bytes(rs, data) + removal_entry_bytes(r, data));
    }
}

/// Wire bytes of one changes entry: the entity, the number of components,
/// then the component chunks.
pub open spec fn change_entry_bytes(entity: ByteRange, components: Seq<ByteRange>, data: Seq<u8>) -> Seq<u8> {
    entity.select(data) + varint_bytes(components.len() as nat) + ranges_bytes(components, data)
}

/// Wire bytes of the changes section: one entry per changed entity, with no
/// count in front since changes always close the message.
pub open spec fn changes_bytes(cs: Seq<(ByteRange, Seq<ByteRange>)>, data: Seq<u8>) -> Seq<u8>
    decreases cs.len(),
{
    if cs.len() == 0 {
        Seq::empty()
    } else {
        change_entry_bytes(cs[0].0, cs[0].1, data) + changes_bytes(cs.drop_first(), data)
    }
}

pub proof fn lemma_changes_bytes_push(
    cs: Seq<(ByteRange, Seq<ByteRange>)>,
    data: Seq<u8>,
    c: (ByteRange, Seq<ByteRange>),
)
    ensures
        changes_bytes(cs.push(c), data)
            == changes_bytes(cs, data) + change_entry_bytes(c.0, c.1, data),
    decreases cs.len(),
{
    if cs.len() == 0 {
        let p = cs.push(c);
        assert(p[0] == c);
        assert(p.drop_first() =~= Seq::<(ByteRange, Seq<ByteRange>)>::empty());
        assert(changes_bytes(p, data)
            == change_entry_bytes(p[0].0, p[0].1, data) + changes_bytes(p.drop_first(), data));
        assert(changes_bytes(p.drop_first(), data) =~= Seq::<u8>::empty());
        assert(change_entry_bytes(c.0, c.1, data) + Seq::<u8>::empty()
            =~= change_entry_bytes(c.0, c.1, data));
        assert(changes_bytes(cs, data) + change_entry_bytes(c.0, c.1, data)
            =~= change_entry_bytes(c.0, c.1, data));
    } else {
        assert(cs.push(c).drop_first() =~= cs.drop_first().push(c));
        assert(cs.push(c)[0] == cs[0]);
        lemma_changes_bytes_push(cs.drop_first(), data, c);
        assert(changes_bytes(cs.push(c), data)
            =~= changes_bytes(cs, data) + change_entry_bytes(c.0, c.1, data));
    }
}

/// Largest entity or entry count one message section may carry.
pub const SECTION_LIMIT: usize = 65535;

/// Failure of message finalization.
#[derive(Clone, Copy, Debug, PartialEq, Eq, Structural)]
pub enum SerializeError {
    /// A section holds more entries than the protocol's per-message limit.
    SizeLimit,
}

/// A change message under construction for one client.
pub struct ChangeMessage {
    /// Chunk of serialized (server, client) entity pairs, written before
    /// everything else so later references resolve.
    mappings: ByteRange,
    /// Number of pairs inside `mappings`.
    mappings_len: usize,
    /// Serialized identities of entities despawned this tick, one chunk per
    /// entity, adjacent chunks merged.
    despawns: Vec<ByteRange>,
    /// Number of despawned entities.
    despawns_len: usize,
    /// Component removals, one entry per entity.
    removals: Vec<ComponentRemovals>,
    /// Component insertions, one entry per entity. Mutations of an entity
    /// that also changed structurally are folded in here to stay atomic.
    changes: Vec<ComponentChanges>,
    /// Visibility of the entity whose changes are being written.
    entity_visibility: Visibility,
    /// Whether the current entity has been written to `changes`.
    entity_written: bool,
    /// Spare component vectors kept for reuse.
    buffer: Vec<Vec<ByteRange>>,
}

impl ChangeMessage {
    pub closed spec fn spec_mappings(self) -> (ByteRange, nat) {
        (self.mappings, self.mappings_len as nat)
    }

    pub closed spec fn spec_despawns(self) -> Seq<ByteRange> {
        self.despawns@
    }

    pub closed spec fn spec_despawns_len(self) -> nat {
        self.despawns_len as nat
    }

    pub closed spec fn spec_removals(self) -> Seq<ComponentRemovals> {
        self.removals@
    }

    pub closed spec fn spec_changes(self) -> Seq<(ByteRange, Seq<ByteRange>)> {
        self.changes@.map_values(|c: ComponentChanges| (c.entity, c.components@))
    }

    pub closed spec fn spec_entity_visibility(self) -> Visibility {
        self.entity_visibility
    }

    pub closed spec fn spec_entity_written(self) -> bool {
        self.entity_written
    }

    /// An entity marked written really has a changes entry.
    pub open spec fn inv(self) -> bool {
        self.spec_entity_written() ==> self.spec_changes().len() > 0
    }

    /// Which sections the finished message will carry.
    pub open spec fn spec_flags(self) -> ChangeMessageFlags {
        ChangeMessageFlags {
            mappings: self.spec_mappings().0.spec_len() != 0,
            despawns: self.spec_despawns().len() != 0,
            removals: self.spec_removals().len() != 0,
            changes: self.spec_changes().len() != 0,
        }
    }

    /// All ranges the message holds lie inside `data`.
    pub open spec fn wf(self, data: Seq<u8>) -> bool {
        &&& self.spec_mappings().0.valid_for(data)
        &&& ranges_valid(self.spec_despawns(), data)
        &&& forall|i: int| 0 <= i < self.spec_removals().len() ==> {
            &&& (#[trigger] self.spec_removals()[i]).entity.valid_for(data)
            &&& self.spec_removals()[i].fn_ids.valid_for(data)
        }
        &&& forall|i: int| 0 <= i < self.spec_changes().len() ==> {
            &&& (#[trigger] self.spec_changes()[i]).0.valid_for(data)
            &&& ranges_valid(self.spec_changes()[i].1, data)
        }
    }

    /// The finished wire message: the flag byte, the tick, then each present
    /// section in canonical order. Every present section is preceded by its
    /// entry count except the last one, which runs to the end of the
    /// message; a mappings section always carries its count since a message
    /// never ends with mappings alone that a client has not asked about.
    pub open spec fn spec_bytes(self, data: Seq<u8>, tick: ByteRange) -> Seq<u8> {
        let f = self.spec_flags();
        seq![f.spec_bits()] + tick.select(data) + (if f.mappings {
            varint_bytes(self.spec_mappings().1) + self.spec_mappings().0.select(data)
        } else {
            Seq::empty()
        }) + (if f.despawns {
            (if f.removals || f.changes {
                varint_bytes(self.spec_despawns_len())
            } else {
                Seq::empty()
            }) + ranges_bytes(self.spec_despawns(), data)
        } else {
            Seq::empty()
        }) + (if f.removals {
            (if f.changes {
                varint_bytes(self.spec_removals().len() as nat)
            } else {
                Seq::empty()
            }) + removals_bytes(self.spec_removals(), data)
        } else {
            Seq::empty()
        }) + (if f.changes {
            changes_bytes(self.spec_changes(), data)
        } else {
            Seq::empty()
        })
    }

    pub fn new() -> (r: Self)
        ensures
            r.spec_mappings().0 == (ByteRange { start: 0usize, end: 0usize }),
            r.spec_mappings().1 == 0,
            r.spec_despawns().len() == 0,
            r.spec_despawns_len() == 0,
            r.spec_removals().len() == 0,
            r.spec_changes().len() == 0,
            !r.spec_entity_written(),
    {
        ChangeMessage {
            mappings: ByteRange { start: 0, end: 0 },
            mappings_len: 0,
            despawns: Vec::new(),
            despawns_len: 0,
            removals: Vec::new(),
            changes: Vec::new(),
            entity_visibility: Visibility::Hidden,
            entity_written: false,
            buffer: Vec::new(),
        }
    }

    /// Installs the chunk of pre-registered entity mappings.
    pub fn set_mappings(&mut self, mappings: ByteRange, len: usize)
        ensures
            final(self).spec_mappings() == (mappings, len as nat),
            final(self).spec_despawns() == old(self).spec_despawns(),
            final(self).spec_despawns_len() == old(self).spec_despawns_len(),
            final(self).spec_removals() == old(self).spec_removals(),
            final(self).spec_changes() == old(self).spec_changes(),
            final(self).spec_entity_written() == old(self).spec_entity_written(),
    {
        self.mappings = mappings;
        self.mappings_len = len;
    }

    /// Records one despawned entity, merging its chunk into the previous one
    /// when they are adjacent in the arena. The bytes the section produces
    /// grow by exactly the entity's chunk either way.
    pub fn add_despawn(&mut self, entity: ByteRange)
        requires
            entity.start <= entity.end,
            old(self).spec_despawns_len() < usize::MAX,
        ensures
            final(self).spec_despawns_len() == old(self).spec_despawns_len() + 1,
            final(self).spec_mappings() == old(self).spec_mappings(),
            final(self).spec_removals() == old(self).spec_removals(),
            final(self).spec_changes() == old(self).spec_changes(),
            final(self).spec_entity_written() == old(self).spec_entity_written(),
            forall|data: Seq<u8>|
                ranges_valid(old(self).spec_despawns(), data) && #[trigger] entity.valid_for(data)
                    ==> ranges_valid(final(self).spec_despawns(), data)
                        && ranges_bytes(final(self).spec_despawns(), data)
                            == ranges_bytes(old(self).spec_despawns(), data) + entity.select(data),
    {
        self.despawns_len = self.despawns_len + 1;
        let n = self.despawns.len();
        if n > 0 {
            let last = self.despawns[n - 1];
            if last.end == entity.start {
                let merged = ByteRange { start: last.start, end: entity.end };
                self.despawns[n - 1] = merged;
                proof {
                    let pre = old(self).spec_despawns();
                    let init = pre.drop_last();
                    assert(pre =~= init.push(last));
                    assert(self.despawns@ =~= init.push(merged));
                    assert forall|data: Seq<u8>|
                        ranges_valid(pre, data) && #[trigger] entity.valid_for(data)
                            implies ranges_valid(self.despawns@, data)
                                && ranges_bytes(self.despawns@, data)
                                    == ranges_bytes(pre, data) + entity.select(data) by {
                        assert(last.valid_for(data)) by {
                            assert(pre[pre.len() - 1].valid_for(data));
                        }
                        assert(ranges_valid(init, data)) by {
                            assert forall|i: int| 0 <= i < init.len()
                                implies #[trigger] init[i].valid_for(data) by {
                                assert(pre[i].valid_for(data));
                            }
                        }
                        assert(merged.valid_for(data));
                        assert forall|i: int| 0 <= i < self.despawns@.len()
                            implies #[trigger] self.despawns@[i].valid_for(data) by {
                            if i < init.len() {
                                assert(self.despawns@[i] == init[i]);
                            } else {
                                assert(self.despawns@[i] == merged);
                            }
                        }
                        lemma_ranges_bytes_push(init, data, last);
                        lemma_ranges_bytes_push(init, data, merged);
                        assert(merged.select(data) =~= last.select(data) + entity.select(data));
                        assert(ranges_bytes(init, data) + merged.select(data)
                            =~= ranges_bytes(init, data) + last.select(data) + entity.select(data));
                    }
                }
                return;
            }
        }
        let ghost pre = self.despawns@;
        self.despawns.push(entity);
        proof {
            assert forall|data: Seq<u8>|
                ranges_valid(pre, data) && #[trigger] entity.valid_for(data)
                    implies ranges_valid(self.despawns@, data)
                        && ranges_bytes(self.despawns@, data)
                            == ranges_bytes(pre, data) + entity.select(data) by {
                assert forall|i: int| 0 <= i < self.despawns@.len()
                    implies #[trigger] self.despawns@[i].valid_for(data) by {
                    if i < pre.len() {
                        assert(self.despawns@[i] == pre[i]);
                    } else {
                        assert(self.despawns@[i] == entity);
                    }
                }
                lemma_ranges_bytes_push(pre, data, entity);
            }
        }
    }

    /// Records one entity's component removals.
    pub fn add_removals(&mut self, entity: ByteRange, ids_len: usize, fn_ids: ByteRange)
        ensures
            final(self).spec_removals()
                == old(self).spec_removals().push(ComponentRemovals { entity, ids_len, fn_ids }),
            final(self).spec_mappings() == old(self).spec_mappings(),
            final(self).spec_despawns() == old(self).spec_despawns(),
            final(self).spec_despawns_len() == old(self).spec_despawns_len(),
            final(self).spec_changes() == old(self).spec_changes(),
            final(self).spec_entity_written() == old(self).spec_entity_written(),
    {
        self.removals.push(ComponentRemovals { entity, ids_len, fn_ids });
    }

    /// Starts writing changed components for an entity with the given
    /// visibility; the entity itself is only written once it has data.
    pub fn start_entity_changes(&mut self, visibility: Visibility)
        ensures
            final(self).spec_entity_visibility() == visibility,
            !final(self).spec_entity_written(),
            final(self).spec_mappings() == old(self).spec_mappings(),
            final(self).spec_despawns() == old(self).spec_despawns(),
            final(self).spec_despawns_len() == old(self).spec_despawns_len(),
            final(self).spec_removals() == old(self).spec_removals(),
            final(self).spec_changes() == old(self).spec_changes(),
    {
        self.entity_visibility = visibility;
        self.entity_written = false;
    }

    /// Visibility from the last [`Self::start_entity_changes`].
    pub fn entity_visibility(&self) -> (r: Visibility)
        ensures
            r == self.spec_entity_visibility(),
    {
        self.entity_visibility
    }

    /// Whether the current entity has been written since the last
    /// [`Self::start_entity_changes`].
    pub fn entity_written(&self) -> (r: bool)
        ensures
            r == self.spec_entity_written(),
    {
        self.entity_written
    }

    /// Opens a changes entry for the current entity.
    pub fn add_changed_entity(&mut self, entity: ByteRange)
        ensures
            final(self).spec_changes()
                == old(self).spec_changes().push((entity, Seq::<ByteRange>::empty())),
            final(self).spec_entity_written(),
            final(self).spec_entity_visibility() == old(self).spec_entity_visibility(),
            final(self).spec_mappings() == old(self).spec_mappings(),
            final(self).spec_despawns() == old(self).spec_despawns(),
            final(self).spec_despawns_len() == old(self).spec_despawns_len(),
            final(self).spec_removals() == old(self).spec_removals(),
    {
        let components = match self.buffer.pop() {
            Some(mut v) => {
                v.clear();
                v
            },
            None => Vec::new(),
        };
        let ghost pre = self.changes@;
        self.changes.push(ComponentChanges { entity, components });
        self.entity_written = true;
        proof {
            assert(self.changes@.map_values(|c: ComponentChanges| (c.entity, c.components@))
                =~= pre.map_values(|c: ComponentChanges| (c.entity, c.components@))
                    .push((entity, Seq::<ByteRange>::empty())));
        }
    }

    /// Appends one inserted component's chunk to the entity opened by the
    /// last [`Self::add_changed_entity`].
    pub fn add_inserted_component(&mut self, component: ByteRange)
        requires
            old(self).spec_changes().len() > 0,
        ensures
            final(self).spec_changes() == old(self).spec_changes().update(
                old(self).spec_changes().len() - 1,
                (
                    old(self).spec_changes().last().0,
                    old(self).spec_changes().last().1.push(component),
                ),
            ),
            final(self).spec_entity_written() == old(self).spec_entity_written(),
            final(self).spec_mappings() == old(self).spec_mappings(),
            final(self).spec_despawns() == old(self).spec_despawns(),
            final(self).spec_despawns_len() == old(self).spec_despawns_len(),
            final(self).spec_removals() == old(self).spec_removals(),
    {
        let n = self.changes.len();
        let entry = &mut self.changes[n - 1];
        entry.components.push(component);
        proof {
            let f = |c: ComponentChanges| (c.entity, c.components@);
            assert(self.changes@.map_values(f)
                =~= old(self).changes@.map_values(f).update(
                    old(self).changes@.len() - 1,
                    (old(self).changes@.last().entity, old(self).changes@.last().components@.push(component)),
                ));
        }
    }

    /// Folds the mutate message's current entity into this change message,
    /// so a client never sees an entity's structural change and its value
    /// mutations split across reliability classes.
    ///
    /// When the mutate message wrote mutations for its current entity, that
    /// entry leaves the mutate message whole and its component chunks land
    /// in this message's changes section, under the entity opened here, or
    /// under a new entry for that entity when none is open.
    pub fn take_mutations(&mut self, mutate_message: &mut crate::mutate_message::MutateMessage)
        requires
            old(self).inv(),
            old(mutate_message).inv(),
        ensures
            final(self).inv(),
            final(mutate_message).inv(),
            !old(mutate_message).spec_entity_written() ==> {
                &&& *final(self) == *old(self)
                &&& *final(mutate_message) == *old(mutate_message)
            },
            old(mutate_message).spec_entity_written() ==> {
                &&& final(mutate_message).spec_mutations()
                    == old(mutate_message).spec_mutations().drop_last()
                &&& !final(mutate_message).spec_entity_written()
                &&& if old(self).spec_entity_written() {
                    final(self).spec_changes() == old(self).spec_changes().update(
                        old(self).spec_changes().len() - 1,
                        (
                            old(self).spec_changes().last().0,
                            old(self).spec_changes().last().1
                                + old(mutate_message).spec_mutations().last().1,
                        ),
                    )
                } else {
                    final(self).spec_changes() == old(self).spec_changes().push(
                        old(mutate_message).spec_mutations().last(),
                    )
                }
                &&& final(self).spec_entity_written() == old(self).spec_entity_written()
                &&& final(self).spec_mappings() == old(self).spec_mappings()
                &&& final(self).spec_despawns() == old(self).spec_despawns()
                &&& final(self).spec_despawns_len() == old(self).spec_despawns_len()
                &&& final(self).spec_removals() == old(self).spec_removals()
            },
    {
        if !mutate_message.mutations_written() {
            return;
        }
        let (entity, mut components) = mutate_message.pop_mutations();
        if !self.entity_written {
            let ghost pre = self.changes@;
            self.changes.push(ComponentChanges { entity, components: Vec::new() });
            proof {
                let f = |c: ComponentChanges| (c.entity, c.components@);
                assert(self.changes@.map_values(f)
                    =~= pre.map_values(f).push((entity, Seq::<ByteRange>::empty())));
            }
        }
        let n = self.changes.len();
        let ghost mid = self.changes@;
        let entry = &mut self.changes[n - 1];
        let ghost entry_pre = *entry;
        entry.components.append(&mut components);
        proof {
            let f = |c: ComponentChanges| (c.entity, c.components@);
            if old(self).spec_entity_written() {
                assert(self.changes@.map_values(f)
                    =~= old(self).changes@.map_values(f).update(
                        old(self).changes@.len() - 1,
                        (
                            old(self).changes@.last().entity,
                            old(self).changes@.last().components@
                                + old(mutate_message).spec_mutations().last().1,
                        ),
                    ));
            } else {
                assert(entry_pre.components@ =~= Seq::<ByteRange>::empty());
                assert(Seq::<ByteRange>::empty() + old(mutate_message).spec_mutations().last().1
                    =~= old(mutate_message).spec_mutations().last().1);
                assert(self.changes@.map_values(f)
                    =~= old(self).changes@.map_values(f).push(
                        old(mutate_message).spec_mutations().last(),
                    ));
            }
        }
    }

    /// Number of despawned entities recorded so far.
    pub fn despawns_len(&self) -> (r: usize)
        ensures
            r == self.spec_despawns_len(),
    {
        self.despawns_len
    }

    /// The message carries nothing at all.
    pub fn is_empty(&self) -> (r: bool)
        ensures
            r == {
                &&& self.spec_changes().len() == 0
                &&& self.spec_despawns().len() == 0
                &&& self.spec_removals().len() == 0
                &&& self.spec_mappings().0.spec_len() == 0
            },
    {
        self.changes.len() == 0 && self.despawns.len() == 0 && self.removals.len() == 0
            && self.mappings.is_empty()
    }

    /// The flag byte the finished message will open with.
    pub fn flags(&self) -> (r: ChangeMessageFlags)
        ensures
            r == self.spec_flags(),
    {
        ChangeMessageFlags {
            mappings: !self.mappings.is_empty(),
            despawns: self.despawns.len() != 0,
            removals: self.removals.len() != 0,
            changes: self.changes.len() != 0,
        }
    }

    /// Clears all sections for the next tick, keeping allocated memory.
    pub fn clear(&mut self)
        ensures
            final(self).spec_mappings().0 == (ByteRange { start: 0usize, end: 0usize }),
            final(self).spec_mappings().1 == 0,
            final(self).spec_despawns().len() == 0,
            final(self).spec_despawns_len() == 0,
            final(self).spec_removals().len() == 0,
            final(self).spec_changes().len() == 0,
            !final(self).spec_entity_written(),
            final(self).inv(),
    {
        self.mappings = ByteRange { start: 0, end: 0 };
        self.mappings_len = 0;
        self.despawns.clear();
        self.despawns_len = 0;
        self.removals.clear();
        self.entity_written = false;
        while self.changes.len() > 0
            invariant
                self.mappings == (ByteRange { start: 0usize, end: 0usize }),
                self.mappings_len == 0,
                self.despawns@.len() == 0,
                self.despawns_len == 0,
                self.removals@.len() == 0,
                !self.entity_written,
            decreases self.changes@.len(),
        {
            let mut c = self.changes.pop().unwrap();
            c.components.clear();
            self.buffer.push(c.components);
        }
    }

    /// Finalizes the message into its wire bytes: the flag byte, the given
    /// serialized tick, then each present section in canonical order.
    ///
    /// Fails exactly when a section holds more entries than
    /// [`SECTION_LIMIT`], as the protocol caps what one message may carry;
    /// the pass reports the error for this client and goes on.
    pub fn serialize(&self, serialized: &ReplicationBuffer, server_tick: ByteRange) -> (r: Result<
        Vec<u8>,
        SerializeError,
    >)
        requires
            self.wf(serialized.data()),
            server_tick.valid_for(serialized.data()),
        ensures
            match r {
                Ok(bytes) => {
                    &&& bytes@ == self.spec_bytes(serialized.data(), server_tick)
                    &&& self.spec_mappings().1 <= SECTION_LIMIT
                    &&& self.spec_despawns_len() <= SECTION_LIMIT
                    &&& self.spec_removals().len() <= SECTION_LIMIT
                    &&& self.spec_changes().len() <= SECTION_LIMIT
                },
                Err(e) => {
                    &&& e == SerializeError::SizeLimit
                    &&& self.spec_mappings().1 > SECTION_LIMIT
                        || self.spec_despawns_len() > SECTION_LIMIT
                        || self.spec_removals().len() > SECTION_LIMIT
                        || self.spec_changes().len() > SECTION_LIMIT
                },
            },
    {
        if self.mappings_len > SECTION_LIMIT || self.despawns_len > SECTION_LIMIT
            || self.removals.len() > SECTION_LIMIT || self.changes.len() > SECTION_LIMIT {
            return Err(SerializeError::SizeLimit);
        }
        let ghost data = serialized.data();
        let f = self.flags();
        let mut out: Vec<u8> = Vec::new();
        out.push(f.bits());
        let ghost seg_head = seq![f.spec_bits()];
        assert(out@ =~= seg_head);
        serialized.extend_from_range(&mut out, server_tick);
        let ghost seg_tick = seg_head + server_tick.select(data);
        let ghost seg_mappings = seg_tick + (if self.spec_flags().mappings {
            varint_bytes(self.spec_mappings().1) + self.spec_mappings().0.select(data)
        } else {
            Seq::<u8>::empty()
        });
        if f.mappings {
            write_varint(&mut out, self.mappings_len as u64);
            serialized.extend_from_range(&mut out, self.mappings);
            assert(out@ =~= seg_mappings);
        } else {
            assert(out@ =~= seg_mappings);
        }
        let ghost seg_despawns = seg_mappings + (if self.spec_flags().despawns {
            (if self.spec_flags().removals || self.spec_flags().changes {
                varint_bytes(self.spec_despawns_len())
            } else {
                Seq::<u8>::empty()
            }) + ranges_bytes(self.spec_despawns(), data)
        } else {
            Seq::<u8>::empty()
        });
        if f.despawns {
            if f.removals || f.changes {
                write_varint(&mut out, self.despawns_len as u64);
            }
            let ghost body_start = out@;
            let mut i: usize = 0;
            while i < self.despawns.len()
                invariant
                    i <= self.despawns@.len(),
                    ranges_valid(self.despawns@, data),
                    data == serialized.data(),
                    out@ == body_start + ranges_bytes(self.despawns@.subrange(0, i as int), data),
                decreases self.despawns@.len() - i,
            {
                proof {
                    lemma_ranges_bytes_push(
                        self.despawns@.subrange(0, i as int), data, self.despawns@[i as int]);
                    assert(self.despawns@.subrange(0, i as int).push(self.despawns@[i as int])
                        =~= self.despawns@.subrange(0, i + 1));
                }
                serialized.extend_from_range(&mut out, self.despawns[i]);
                i = i + 1;
            }
            assert(self.despawns@.subrange(0, self.despawns@.len() as int) =~= self.despawns@);
            assert(out@ =~= seg_despawns);
        } else {
            assert(out@ =~= seg_despawns);
        }
        let ghost seg_removals = seg_despawns + (if self.spec_flags().removals {
            (if self.spec_flags().changes {
                varint_bytes(self.spec_removals().len() as nat)
            } else {
                Seq::<u8>::empty()
            }) + removals_bytes(self.spec_removals(), data)
        } else {
            Seq::<u8>::empty()
        });
        if f.removals {
            if f.changes {
                write_varint(&mut out, self.removals.len() as u64);
            }
            let ghost body_start = out@;
            let mut i: usize = 0;
            while i < self.removals.len()
                invariant
                    i <= self.removals@.len(),
                    data == serialized.data(),
                    forall|j: int| 0 <= j < self.removals@.len() ==> {
                        &&& (#[trigger] self.removals@[j]).entity.valid_for(data)
                        &&& self.removals@[j].fn_ids.valid_for(data)
                    },
                    out@ == body_start + removals_bytes(self.removals@.subrange(0, i as int), data),
                decreases self.removals@.len() - i,
            {
                proof {
                    lemma_removals_bytes_push(
                        self.removals@.subrange(0, i as int), data, self.removals@[i as int]);
                    assert(self.removals@.subrange(0, i as int).push(self.removals@[i as int])
                        =~= self.removals@.subrange(0, i + 1));
                }
                let entry = self.removals[i];
                serialized.extend_from_range(&mut out, entry.entity);
                write_varint(&mut out, entry.ids_len as u64);
                serialized.extend_from_range(&mut out, entry.fn_ids);
                i = i + 1;
                assert(out@ =~= body_start
                    + removals_bytes(self.removals@.subrange(0, i as int), data));
            }
            assert(self.removals@.subrange(0, self.removals@.len() as int) =~= self.removals@);
            assert(out@ =~= seg_removals);
        } else {
            assert(out@ =~= seg_removals);
        }
        let ghost seg_changes = seg_removals + (if self.spec_flags().changes {
            changes_bytes(self.spec_changes(), data)
        } else {
            Seq::<u8>::empty()
        });
        if f.changes {
            let ghost body_start = out@;
            let ghost cs = self.spec_changes();
            let mut i: usize = 0;
            while i < self.changes.len()
                invariant
                    i <= self.changes@.len(),
                    data == serialized.data(),
                    cs == self.spec_changes(),
                    forall|j: int| 0 <= j < cs.len() ==> {
                        &&& (#[trigger] cs[j]).0.valid_for(data)
                        &&& ranges_valid(cs[j].1, data)
                    },
                    cs.len() == self.changes@.len(),
                    forall|j: int| 0 <= j < cs.len()
                        ==> #[trigger] cs[j] == (self.changes@[j].entity, self.changes@[j].components@),
                    out@ == body_start + changes_bytes(cs.subrange(0, i as int), data),
                decreases self.changes@.len() - i,
            {
                proof {
                    lemma_changes_bytes_push(cs.subrange(0, i as int), data, cs[i as int]);
                    assert(cs.subrange(0, i as int).push(cs[i as int])
                        =~= cs.subrange(0, i + 1));
                }
                let entry = &self.changes[i];
                serialized.extend_from_range(&mut out, entry.entity);
                write_varint(&mut out, entry.components.len() as u64);
                let ghost comp_start = out@;
                let mut j: usize = 0;
                while j < entry.components.len()
                    invariant
                        j <= entry.components@.len(),
                        data == serialized.data(),
                        ranges_valid(entry.components@, data),
                        out@ == comp_start
                            + ranges_bytes(entry.components@.subrange(0, j as int), data),
                    decreases entry.components@.len() - j,
                {
                    proof {
                        lemma_ranges_bytes_push(
                            entry.components@.subrange(0, j as int),
                            data,
                            entry.components@[j as int],
                        );
                        assert(entry.components@.subrange(0, j as int)
                            .push(entry.components@[j as int])
                            =~= entry.components@.subrange(0, j + 1));
                    }
                    serialized.extend_from_range(&mut out, entry.components[j]);
                    j = j + 1;
                }
                assert(entry.components@.subrange(0, entry.components@.len() as int)
                    =~= entry.components@);
                i = i + 1;
                assert(out@ =~= body_start + changes_bytes(cs.subrange(0, i as int), data));
            }
            assert(cs.subrange(0, cs.len() as int) =~= cs);
            assert(out@ =~= seg_changes);
        } else {
            assert(out@ =~= seg_changes);
        }
        assert(out@ =~= self.spec_bytes(data, server_tick));
        Ok(out)
    }
}

} // verus!
