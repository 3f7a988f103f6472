//! Buffering of server events that outrun replication.
//!
//! A server event carries the tick its sender had confirmed to the client;
//! an event arriving ahead of the client's init tick must wait, or it could
//! refer to entities the client has not spawned yet. The waiting events
//! live in an insertion-ordered multimap keyed by tick, so draining from
//! the front dispatches them in arrival order.

use vstd::prelude::*;
use crate::tick::RepliconTick;

verus! {

#[verifier::external_type_specification]
#[verifier::external_body]
#[verifier::reject_recursive_types(Key)]
#[verifier::reject_recursive_types(Value)]
#[verifier::reject_recursive_types(State)]
pub struct ExListOrderedMultimap<Key, Value, State>(
    ordered_multimap::ListOrderedMultimap<Key, Value, State>,
);

/// The (key, value) entries held by the multimap, in value insertion
/// order, which is the order its front-access functions see.
pub uninterp spec fn queue_entries(
    q: ordered_multimap::ListOrderedMultimap<u32, Vec<u8>, std::collections::hash_map::RandomState>,
) -> Seq<(u32, Seq<u8>)>;

/// Relies on ListOrderedMultimap::new: a fresh multimap holds nothing.
#[verifier::external_body]
fn multimap_new() -> (r: ordered_multimap::ListOrderedMultimap<u32, Vec<u8>>)
    ensures
        queue_entries(r) == Seq::<(u32, Seq<u8>)>::empty(),
{
    ordered_multimap::ListOrderedMultimap::new()
}

/// Relies on ListOrderedMultimap::append, which pushes the value at the
/// back of the map's value list and keeps every existing value.
#[verifier::external_body]
fn multimap_append(
    q: &mut ordered_multimap::ListOrderedMultimap<u32, Vec<u8>>,
    key: u32,
    value: Vec<u8>,
)
    ensures
        queue_entries(*final(q)) == queue_entries(*old(q)).push((key, value@)),
{
    let _ = q.append(key, value);
}

/// Relies on ListOrderedMultimap::front, which returns the first entry of
/// the value list, and on iteration seeing values in insertion order.
#[verifier::external_body]
fn multimap_front_key(
    q: &ordered_multimap::ListOrderedMultimap<u32, Vec<u8>>,
) -> (r: Option<u32>)
    ensures
        match r {
            Some(k) => queue_entries(*q).len() > 0 && k == queue_entries(*q)[0].0,
            None => queue_entries(*q).len() == 0,
        },
{
    q.front().map(|(k, _)| *k)
}

/// Relies on ListOrderedMultimap::pop_front, which removes and returns the
/// first entry of the value list with its key.
#[verifier::external_body]
fn multimap_pop_front(
    q: &mut ordered_multimap::ListOrderedMultimap<u32, Vec<u8>>,
) -> (r: Option<(u32, Vec<u8>)>)
    ensures
        match r {
            Some(p) => {
                &&& queue_entries(*old(q)).len() > 0
                &&& (p.0, p.1@) == queue_entries(*old(q))[0]
                &&& queue_entries(*final(q)) == queue_entries(*old(q)).drop_first()
            },
            None => {
                &&& queue_entries(*old(q)).len() == 0
                &&& queue_entries(*final(q)) == queue_entries(*old(q))
            },
        },
{
    q.pop_front().map(|(k, v)| {
        let key = match k {
            ordered_multimap::list_ordered_multimap::KeyWrapper::Borrowed(b) => *b,
            ordered_multimap::list_ordered_multimap::KeyWrapper::Owned(o) => o,
        };
        (key, v)
    })
}

/// Relies on ListOrderedMultimap::values_len, the total number of values.
#[verifier::external_body]
fn multimap_values_len(q: &ordered_multimap::ListOrderedMultimap<u32, Vec<u8>>) -> (r: usize)
    ensures
        r == queue_entries(*q).len(),
{
    q.values_len()
}

/// Relies on ListOrderedMultimap::clear, which removes every entry.
#[verifier::external_body]
fn multimap_clear(q: &mut ordered_multimap::ListOrderedMultimap<u32, Vec<u8>>)
    ensures
        queue_entries(*final(q)) == Seq::<(u32, Seq<u8>)>::empty(),
{
    q.clear();
}

/// Server events that arrived ahead of the client's init tick, waiting in
/// arrival order.
pub struct ServerEventQueue {
    queue: ordered_multimap::ListOrderedMultimap<u32, Vec<u8>>,
}

impl ServerEventQueue {
    /// The queued (tick value, event payload) entries in arrival order.
    pub closed spec fn entries(self) -> Seq<(u32, Seq<u8>)> {
        queue_entries(self.queue)
    }

    pub fn new() -> (r: Self)
        ensures
            r.entries().len() == 0,
    {
        ServerEventQueue { queue: multimap_new() }
    }

    /// Queues one event under the tick it arrived with.
    pub fn insert(&mut self, tick: RepliconTick, event: Vec<u8>)
        ensures
            final(self).entries() == old(self).entries().push((tick.spec_value(), event@)),
    {
        multimap_append(&mut self.queue, tick.get(), event);
    }

    /// Pops the front event once the init tick has caught up with it:
    /// returns `None` when the queue is empty or its front event is still
    /// ahead of `init_tick`, else removes and returns the front entry.
    pub fn pop_if_le(&mut self, init_tick: RepliconTick) -> (r: Option<(RepliconTick, Vec<u8>)>)
        ensures
            match r {
                Some(p) => {
                    &&& old(self).entries().len() > 0
                    &&& p.0.spec_value() == old(self).entries()[0].0
                    &&& p.1@ == old(self).entries()[0].1
                    &&& !RepliconTick::spec_gt(p.0, init_tick)
                    &&& final(self).entries() == old(self).entries().drop_first()
                },
                None => {
                    &&& *final(self) == *old(self)
                    &&& old(self).entries().len() > 0
                        ==> RepliconTick::spec_gt(
                            RepliconTick::new_spec(old(self).entries()[0].0), init_tick)
                },
            },
    {
        let front = match multimap_front_key(&self.queue) {
            Some(k) => RepliconTick::new(k),
            None => {
                return None;
            },
        };
        let newer = {
            let d = front.diff(init_tick);
            d != 0 && d <= u32::MAX / 2
        };
        if newer {
            proof {
                assert(front == RepliconTick::new_spec(self.entries()[0].0));
            }
            return None;
        }
        match multimap_pop_front(&mut self.queue) {
            Some((k, v)) => Some((RepliconTick::new(k), v)),
            None => {
                proof {
                    assert(false);
                }
                None
            },
        }
    }

    /// Number of queued events.
    pub fn len(&self) -> (r: usize)
        ensures
            r == self.entries().len(),
    {
        multimap_values_len(&self.queue)
    }

    pub fn is_empty(&self) -> (r: bool)
        ensures
            r == (self.entries().len() == 0),
    {
        self.len() == 0
    }

    /// Discards everything queued, as a disconnect does: stale events
    /// referencing a reset session must not be dispatched later.
    pub fn clear(&mut self)
        ensures
            final(self).entries().len() == 0,
    {
        multimap_clear(&mut self.queue);
    }
}

} // verus!
