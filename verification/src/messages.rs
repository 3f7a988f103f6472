//! The per-client pairs of change and mutate messages for one pass.

use vstd::prelude::*;
use crate::change_message::ChangeMessage;
use crate::mutate_message::MutateMessage;

verus! {

/// One (change, mutate) message pair per connected client, with the pairs'
/// allocations reused from tick to tick.
pub struct ReplicationMessages {
    messages: Vec<(ChangeMessage, MutateMessage)>,
    len: usize,
}

impl ReplicationMessages {
    /// Number of clients the pass is building messages for.
    pub closed spec fn spec_len(self) -> nat {
        self.len as nat
    }

    /// The message pair being built for client slot `i`.
    pub closed spec fn spec_pair(self, i: int) -> (ChangeMessage, MutateMessage) {
        self.messages@[i]
    }

    /// Every active slot holds a real pair.
    pub closed spec fn inv(self) -> bool {
        &&& self.len <= self.messages@.len()
        &&& forall|i: int| 0 <= i < self.len ==> (#[trigger] self.messages@[i]).1.inv()
    }

    pub fn new() -> (r: Self)
        ensures
            r.inv(),
            r.spec_len() == 0,
    {
        ReplicationMessages { messages: Vec::new(), len: 0 }
    }

    /// Prepares one cleared message pair per client, reusing already
    /// allocated pairs; extra pairs beyond `clients_count` stay untouched
    /// and inactive.
    pub fn reset(&mut self, clients_count: usize)
        requires
            old(self).inv(),
        ensures
            final(self).inv(),
            final(self).spec_len() == clients_count,
            forall|i: int| 0 <= i < clients_count ==> {
                &&& (#[trigger] final(self).spec_pair(i)).0.spec_mappings().0
                    == (crate::buffer::ByteRange { start: 0usize, end: 0usize })
                &&& final(self).spec_pair(i).0.spec_mappings().1 == 0
                &&& final(self).spec_pair(i).0.spec_despawns().len() == 0
                &&& final(self).spec_pair(i).0.spec_despawns_len() == 0
                &&& final(self).spec_pair(i).0.spec_removals().len() == 0
                &&& final(self).spec_pair(i).0.spec_changes().len() == 0
                &&& !final(self).spec_pair(i).0.spec_entity_written()
                &&& final(self).spec_pair(i).1.spec_mutations().len() == 0
                &&& !final(self).spec_pair(i).1.spec_entity_written()
            },
    {
        self.len = clients_count;
        let mut index: usize = 0;
        while index < clients_count
            invariant
                index <= clients_count,
                index <= self.messages@.len(),
                forall|i: int| 0 <= i < index ==> {
                    &&& (#[trigger] self.messages@[i]).0.spec_mappings().0
                        == (crate::buffer::ByteRange { start: 0usize, end: 0usize })
                    &&& self.messages@[i].0.spec_mappings().1 == 0
                    &&& self.messages@[i].0.spec_despawns().len() == 0
                    &&& self.messages@[i].0.spec_despawns_len() == 0
                    &&& self.messages@[i].0.spec_removals().len() == 0
                    &&& self.messages@[i].0.spec_changes().len() == 0
                    &&& !self.messages@[i].0.spec_entity_written()
                    &&& self.messages@[i].1.spec_mutations().len() == 0
                    &&& !self.messages@[i].1.spec_entity_written()
                    &&& self.messages@[i].1.inv()
                },
            decreases clients_count - index,
        {
            if index < self.messages.len() {
                let pair = &mut self.messages[index];
                pair.0.clear();
                pair.1.clear();
            } else {
                self.messages.push((ChangeMessage::new(), MutateMessage::new()));
            }
            index = index + 1;
        }
        self.len = clients_count;
    }

    /// Number of active message pairs.
    pub fn len(&self) -> (r: usize)
        ensures
            r == self.spec_len(),
    {
        self.len
    }

    /// Mutable access to the pair for client slot `i`.
    pub fn get_mut(&mut self, i: usize) -> (r: &mut (ChangeMessage, MutateMessage))
        requires
            old(self).inv(),
            i < old(self).spec_len(),
        ensures
            *r == old(self).spec_pair(i as int),
            final(self).spec_len() == old(self).spec_len(),
            forall|j: int| 0 <= j < old(self).spec_len() && j != i
                ==> final(self).spec_pair(j) == old(self).spec_pair(j),
            final(self).spec_pair(i as int) == *final(r),
            final(r).1.inv() ==> final(self).inv(),
    {
        &mut self.messages[i]
    }

    /// Read access to the pair for client slot `i`.
    pub fn get(&self, i: usize) -> (r: &(ChangeMessage, MutateMessage))
        requires
            self.inv(),
            i < self.spec_len(),
        ensures
            *r == self.spec_pair(i as int),
    {
        &self.messages[i]
    }
}

} // verus!
