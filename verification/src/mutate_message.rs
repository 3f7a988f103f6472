//! The per-client mutate message: unordered, droppable value updates.
//!
//! Pure component value updates travel apart from structural changes, on a
//! channel that may reorder or lose them; a lost mutation is superseded by
//! the next one. Each message carries its own tick and an index under which
//! the sender registered it for acknowledgment.

use vstd::prelude::*;
use crate::buffer::{
    lemma_ranges_bytes_push, ranges_bytes, ranges_valid, ByteRange, ReplicationBuffer,
};
use crate::change_message::ComponentChanges;
use crate::varint::{varint_bytes, write_varint};

verus! {

/// Wire bytes of one mutated entity: its identity, the byte length of its
/// component chunks, then the chunks.
pub open spec fn mutation_entry_bytes(m: (ByteRange, Seq<ByteRange>), data: Seq<u8>) -> Seq<u8> {
    m.0.select(data) + varint_bytes(ranges_bytes(m.1, data).len() as nat)
        + ranges_bytes(m.1, data)
}

/// Wire bytes of the whole mutations body, in order.
pub open spec fn mutations_bytes(ms: Seq<(ByteRange, Seq<ByteRange>)>, data: Seq<u8>) -> Seq<u8>
    decreases ms.len(),
{
    if ms.len() == 0 {
        Seq::empty()
    } else {
        mutation_entry_bytes(ms[0], data) + mutations_bytes(ms.drop_first(), data)
    }
}

pub proof fn lemma_mutations_bytes_push(
    ms: Seq<(ByteRange, Seq<ByteRange>)>,
    data: Seq<u8>,
    m: (ByteRange, Seq<ByteRange>),
)
    ensures
        mutations_bytes(ms.push(m), data)
            == mutations_bytes(ms, data) + mutation_entry_bytes(m, data),
    decreases ms.len(),
{
    if ms.len() == 0 {
        let p = ms.push(m);
        assert(p[0] == m);
        assert(p.drop_first() =~= Seq::<(ByteRange, Seq<ByteRange>)>::empty());
        assert(mutations_bytes(p, data)
            == mutation_entry_bytes(p[0], data) + mutations_bytes(p.drop_first(), data));
        assert(mutations_bytes(p.drop_first(), data) =~= Seq::<u8>::empty());
        assert(mutation_entry_bytes(m, data) + Seq::<u8>::empty()
            =~= mutation_entry_bytes(m, data));
        assert(mutations_bytes(ms, data) + mutation_entry_bytes(m, data)
            =~= mutation_entry_bytes(m, data));
    } else {
        assert(ms.push(m).drop_first() =~= ms.drop_first().push(m));
        assert(ms.push(m)[0] == ms[0]);
        lemma_mutations_bytes_push(ms.drop_first(), data, m);
        assert(mutations_bytes(ms.push(m), data)
            =~= mutations_bytes(ms, data) + mutation_entry_bytes(m, data));
    }
}

/// A mutate message under construction for one client.
pub struct MutateMessage {
    /// One entry per mutated entity: its chunk and its component chunks.
    mutations: Vec<ComponentChanges>,
    /// Whether the current entity has been written to `mutations`.
    entity_written: bool,
    /// Spare component vectors kept for reuse.
    buffer: Vec<Vec<ByteRange>>,
}

impl MutateMessage {
    pub closed spec fn spec_mutations(self) -> Seq<(ByteRange, Seq<ByteRange>)> {
        self.mutations@.map_values(|c: ComponentChanges| (c.entity, c.components@))
    }

    pub closed spec fn spec_entity_written(self) -> bool {
        self.entity_written
    }

    /// An entity marked written really has an entry.
    pub open spec fn inv(self) -> bool {
        self.spec_entity_written() ==> self.spec_mutations().len() > 0
    }

    /// All ranges the message holds lie inside `data`.
    pub open spec fn wf(self, data: Seq<u8>) -> bool {
        forall|i: int| 0 <= i < self.spec_mutations().len() ==> {
            &&& (#[trigger] self.spec_mutations()[i]).0.valid_for(data)
            &&& ranges_valid(self.spec_mutations()[i].1, data)
        }
    }

    /// The finished wire message: the serialized tick, the message index,
    /// then every mutated entity with its component chunks.
    pub open spec fn spec_bytes(self, data: Seq<u8>, tick: ByteRange, index: u16) -> Seq<u8> {
        tick.select(data) + varint_bytes(index as nat) + mutations_bytes(self.spec_mutations(), data)
    }

    pub fn new() -> (r: Self)
        ensures
            r.spec_mutations().len() == 0,
            !r.spec_entity_written(),
            r.inv(),
    {
        MutateMessage { mutations: Vec::new(), entity_written: false, buffer: Vec::new() }
    }

    /// Starts writing mutations for the next entity; the entity itself is
    /// only written once it has data.
    pub fn start_entity_mutations(&mut self)
        ensures
            !final(self).spec_entity_written(),
            final(self).spec_mutations() == old(self).spec_mutations(),
            final(self).inv(),
    {
        self.entity_written = false;
    }

    /// Whether the current entity has been written since the last
    /// [`Self::start_entity_mutations`].
    pub fn mutations_written(&self) -> (r: bool)
        ensures
            r == self.spec_entity_written(),
    {
        self.entity_written
    }

    /// Opens a mutations entry for the current entity.
    pub fn add_mutated_entity(&mut self, entity: ByteRange)
        ensures
            final(self).spec_mutations()
                == old(self).spec_mutations().push((entity, Seq::<ByteRange>::empty())),
            final(self).spec_entity_written(),
            final(self).inv(),
    {
        let components = match self.buffer.pop() {
            Some(mut v) => {
                v.clear();
                v
            },
            None => Vec::new(),
        };
        let ghost pre = self.mutations@;
        self.mutations.push(ComponentChanges { entity, components });
        self.entity_written = true;
        proof {
            let f = |c: ComponentChanges| (c.entity, c.components@);
            assert(self.mutations@.map_values(f)
                =~= pre.map_values(f).push((entity, Seq::<ByteRange>::empty())));
        }
    }

    /// Appends one mutated component's chunk to the entity opened by the
    /// last [`Self::add_mutated_entity`].
    pub fn add_mutated_component(&mut self, component: ByteRange)
        requires
            old(self).spec_mutations().len() > 0,
        ensures
            final(self).spec_mutations() == old(self).spec_mutations().update(
                old(self).spec_mutations().len() - 1,
                (
                    old(self).spec_mutations().last().0,
                    old(self).spec_mutations().last().1.push(component),
                ),
            ),
            final(self).spec_entity_written() == old(self).spec_entity_written(),
            old(self).inv() ==> final(self).inv(),
    {
        let n = self.mutations.len();
        let entry = &mut self.mutations[n - 1];
        entry.components.push(component);
        proof {
            let f = |c: ComponentChanges| (c.entity, c.components@);
            assert(self.mutations@.map_values(f)
                =~= old(self).mutations@.map_values(f).update(
                    old(self).mutations@.len() - 1,
                    (
                        old(self).mutations@.last().entity,
                        old(self).mutations@.last().components@.push(component),
                    ),
                ));
        }
    }

    /// Removes and returns the current entity's entry, for the change
    /// message to absorb.
    pub fn pop_mutations(&mut self) -> (r: (ByteRange, Vec<ByteRange>))
        requires
            old(self).spec_mutations().len() > 0,
        ensures
            (r.0, r.1@) == old(self).spec_mutations().last(),
            final(self).spec_mutations() == old(self).spec_mutations().drop_last(),
            !final(self).spec_entity_written(),
            final(self).inv(),
    {
        let entry = self.mutations.pop().unwrap();
        self.entity_written = false;
        proof {
            let f = |c: ComponentChanges| (c.entity, c.components@);
            assert(self.mutations@.map_values(f)
                =~= old(self).mutations@.map_values(f).drop_last());
        }
        (entry.entity, entry.components)
    }

    /// The message carries no mutations.
    pub fn is_empty(&self) -> (r: bool)
        ensures
            r == (self.spec_mutations().len() == 0),
    {
        self.mutations.len() == 0
    }

    /// Clears the message for the next tick, keeping allocated memory.
    pub fn clear(&mut self)
        ensures
            final(self).spec_mutations().len() == 0,
            !final(self).spec_entity_written(),
            final(self).inv(),
    {
        self.entity_written = false;
        while self.mutations.len() > 0
            invariant
                !self.entity_written,
            decreases self.mutations@.len(),
        {
            let mut m = self.mutations.pop().unwrap();
            m.components.clear();
            self.buffer.push(m.components);
        }
    }

    /// Finalizes the message into its wire bytes: the serialized tick, the
    /// index the sender registered for acknowledgment, then every mutated
    /// entity with the byte length of its component chunks in front.
    pub fn serialize(&self, serialized: &ReplicationBuffer, server_tick: ByteRange, index: u16)
        -> (r: Vec<u8>)
        requires
            self.wf(serialized.data()),
            server_tick.valid_for(serialized.data()),
        ensures
            r@ == self.spec_bytes(serialized.data(), server_tick, index),
    {
        let ghost data = serialized.data();
        let mut out: Vec<u8> = Vec::new();
        serialized.extend_from_range(&mut out, server_tick);
        write_varint(&mut out, index as u64);
        let ghost head = server_tick.select(data) + varint_bytes(index as nat);
        assert(out@ =~= head);
        let ghost ms = self.spec_mutations();
        let mut i: usize = 0;
        while i < self.mutations.len()
            invariant
                i <= self.mutations@.len(),
                data == serialized.data(),
                ms == self.spec_mutations(),
                ms.len() == self.mutations@.len(),
                forall|j: int| 0 <= j < ms.len()
                    ==> #[trigger] ms[j]
                        == (self.mutations@[j].entity, self.mutations@[j].components@),
                forall|j: int| 0 <= j < ms.len() ==> {
                    &&& (#[trigger] ms[j]).0.valid_for(data)
                    &&& ranges_valid(ms[j].1, data)
                },
                out@ == head + mutations_bytes(ms.subrange(0, i as int), data),
            decreases self.mutations@.len() - i,
        {
            proof {
                lemma_mutations_bytes_push(ms.subrange(0, i as int), data, ms[i as int]);
                assert(ms.subrange(0, i as int).push(ms[i as int]) =~= ms.subrange(0, i + 1));
            }
            let entry = &self.mutations[i];
            let mut scratch: Vec<u8> = Vec::new();
            let mut j: usize = 0;
            while j < entry.components.len()
                invariant
                    j <= entry.components@.len(),
                    data == serialized.data(),
                    ranges_valid(entry.components@, data),
                    scratch@ == ranges_bytes(entry.components@.subrange(0, j as int), data),
                decreases entry.components@.len() - j,
            {
                proof {
                    lemma_ranges_bytes_push(
                        entry.components@.subrange(0, j as int),
                        data,
                        entry.components@[j as int],
                    );
                    assert(entry.components@.subrange(0, j as int)
                        .push(entry.components@[j as int])
                        =~= entry.components@.subrange(0, j + 1));
                }
                serialized.extend_from_range(&mut scratch, entry.components[j]);
                j = j + 1;
            }
            assert(entry.components@.subrange(0, entry.components@.len() as int)
                =~= entry.components@);
            serialized.extend_from_range(&mut out, entry.entity);
            write_varint(&mut out, scratch.len() as u64);
            out.append(&mut scratch);
            i = i + 1;
            assert(out@ =~= head + mutations_bytes(ms.subrange(0, i as int), data));
        }
        assert(ms.subrange(0, ms.len() as int) =~= ms);
        out
    }
}

} // verus!
