//! Append-only arena for serialized replication data.
//!
//! One collection pass owns one buffer; messages hold ranges into it instead
//! of owned bytes, so the same serialized value (a tick, an entity) can be
//! shared by every client's message without being serialized twice.

use vstd::prelude::*;
use crate::codec::{tick_bytes, write_tick};
use crate::entity::{entity_bytes, write_entity, Entity};
use crate::tick::RepliconTick;

verus! {

/// Half-open range of bytes inside a [`ReplicationBuffer`].
#[derive(Clone, Copy, Debug, Hash, PartialEq, Eq, Structural)]
pub struct ByteRange {
    pub start: usize,
    pub end: usize,
}

impl ByteRange {
    /// The range addresses well-formed positions inside `data`.
    pub open spec fn valid_for(self, data: Seq<u8>) -> bool {
        self.start <= self.end <= data.len()
    }

    /// The bytes the range selects out of `data`.
    pub open spec fn select(self, data: Seq<u8>) -> Seq<u8> {
        data.subrange(self.start as int, self.end as int)
    }

    pub open spec fn spec_len(self) -> int {
        self.end - self.start
    }

    pub fn new(start: usize, end: usize) -> (r: ByteRange)
        ensures
            r == (ByteRange { start, end }),
    {
        ByteRange { start, end }
    }

    pub fn len(self) -> (r: usize)
        requires
            self.start <= self.end,
        ensures
            r == self.spec_len(),
    {
        self.end - self.start
    }

    pub fn is_empty(self) -> (r: bool)
        ensures
            r == (self.start == self.end),
    {
        self.start == self.end
    }
}

/// Every range in the list is well formed for `data`.
pub open spec fn ranges_valid(ranges: Seq<ByteRange>, data: Seq<u8>) -> bool {
    forall|i: int| 0 <= i < ranges.len() ==> #[trigger] ranges[i].valid_for(data)
}

/// The bytes the ranges select out of `data`, in order.
pub open spec fn ranges_bytes(ranges: Seq<ByteRange>, data: Seq<u8>) -> Seq<u8>
    decreases ranges.len(),
{
    if ranges.len() == 0 {
        Seq::empty()
    } else {
        ranges[0].select(data) + ranges_bytes(ranges.drop_first(), data)
    }
}

/// Selected bytes split at the front range.
pub proof fn lemma_ranges_bytes_push(ranges: Seq<ByteRange>, data: Seq<u8>, r: ByteRange)
    ensures
        ranges_bytes(ranges.push(r), data) == ranges_bytes(ranges, data) + r.select(data),
    decreases ranges.len(),
{
    if ranges.len() == 0 {
        let p = ranges.push(r);
        assert(p.len() == 1);
        assert(p[0] == r);
        assert(p.drop_first() =~= Seq::<ByteRange>::empty());
        assert(ranges_bytes(p, data) == p[0].select(data) + ranges_bytes(p.drop_first(), data));
        assert(ranges_bytes(p.drop_first(), data) =~= Seq::<u8>::empty());
        assert(r.select(data) + Seq::<u8>::empty() =~= r.select(data));
        assert(ranges_bytes(ranges, data) + r.select(data) =~= r.select(data));
    } else {
        assert(ranges.push(r).drop_first() =~= ranges.drop_first().push(r));
        lemma_ranges_bytes_push(ranges.drop_first(), data, r);
        assert(ranges_bytes(ranges.push(r), data)
            =~= ranges_bytes(ranges, data) + r.select(data));
    }
}

/// Appending to the arena never changes the bytes an existing range selects.
pub proof fn lemma_select_stable(r: ByteRange, data: Seq<u8>, ext: Seq<u8>)
    requires
        r.valid_for(data),
    ensures
        r.select(data + ext) == r.select(data),
        r.valid_for(data + ext),
{
    assert(r.select(data + ext) =~= r.select(data));
}

/// Appending to the arena never changes the bytes existing ranges select.
pub proof fn lemma_ranges_bytes_stable(ranges: Seq<ByteRange>, data: Seq<u8>, ext: Seq<u8>)
    requires
        ranges_valid(ranges, data),
    ensures
        ranges_bytes(ranges, data + ext) == ranges_bytes(ranges, data),
        ranges_valid(ranges, data + ext),
    decreases ranges.len(),
{
    if ranges.len() > 0 {
        lemma_select_stable(ranges[0], data, ext);
        assert(ranges_valid(ranges.drop_first(), data)) by {
            assert forall|i: int| 0 <= i < ranges.drop_first().len()
                implies #[trigger] ranges.drop_first()[i].valid_for(data) by {
                assert(ranges.drop_first()[i] == ranges[i + 1]);
            }
        }
        lemma_ranges_bytes_stable(ranges.drop_first(), data, ext);
        assert forall|i: int| 0 <= i < ranges.len()
            implies #[trigger] ranges[i].valid_for(data + ext) by {
            if i > 0 {
                assert(ranges.drop_first()[i - 1] == ranges[i]);
                assert(ranges.drop_first()[i - 1].valid_for(data + ext));
            }
        }
    }
}

/// Reusable arena of serialized data.
///
/// Bytes are only ever appended; a handed-out [`ByteRange`] therefore keeps
/// selecting the same bytes for the buffer's whole pass. A one-slot cache
/// remembers the range of the last value written through [`Self::get_or_write`]
/// so the identical value sent to many clients is serialized once.
pub struct ReplicationBuffer {
    data: Vec<u8>,
    cached_range: Option<ByteRange>,
    cached_content: Ghost<Seq<u8>>,
}

impl ReplicationBuffer {
    /// The serialized bytes held so far.
    pub closed spec fn data(self) -> Seq<u8> {
        self.data@
    }

    /// The bytes behind the cache slot, when it is filled.
    pub closed spec fn cached(self) -> Option<Seq<u8>> {
        match self.cached_range {
            Some(_) => Some(self.cached_content@),
            None => None,
        }
    }

    /// The cache slot points at bytes that really sit in the buffer.
    pub closed spec fn wf(self) -> bool {
        match self.cached_range {
            Some(r) => r.valid_for(self.data@) && r.select(self.data@) == self.cached_content@,
            None => true,
        }
    }

    pub fn new() -> (r: Self)
        ensures
            r.wf(),
            r.data().len() == 0,
            r.cached() is None,
    {
        ReplicationBuffer { data: Vec::new(), cached_range: None, cached_content: Ghost(Seq::empty()) }
    }

    /// Clears the buffer for the next pass, keeping its allocation.
    pub fn clear(&mut self)
        ensures
            final(self).wf(),
            final(self).data().len() == 0,
            final(self).cached() is None,
    {
        self.data.clear();
        self.cached_range = None;
    }

    /// Finishes the current write: the next [`Self::get_or_write`] will
    /// serialize anew instead of reusing the cache.
    pub fn end_write(&mut self)
        ensures
            final(self).wf(),
            final(self).data() == old(self).data(),
            final(self).cached() is None,
    {
        self.cached_range = None;
    }

    /// Appends `payload` and returns its range, bypassing the cache.
    pub fn write(&mut self, payload: &[u8]) -> (r: ByteRange)
        requires
            old(self).wf(),
        ensures
            final(self).wf(),
            final(self).data() == old(self).data() + payload@,
            final(self).cached() == old(self).cached(),
            r.valid_for(final(self).data()),
            r.select(final(self).data()) == payload@,
            r.start == old(self).data().len(),
    {
        let start = self.data.len();
        let mut i: usize = 0;
        while i < payload.len()
            invariant
                i <= payload@.len(),
                self.data@ == old(self).data() + payload@.subrange(0, i as int),
                self.cached_range == old(self).cached_range,
                self.cached_content == old(self).cached_content,
            decreases payload@.len() - i,
        {
            self.data.push(payload[i]);
            i = i + 1;
            assert(self.data@ =~= old(self).data() + payload@.subrange(0, i as int));
        }
        assert(payload@.subrange(0, payload@.len() as int) =~= payload@);
        let r = ByteRange { start, end: self.data.len() };
        proof {
            assert(r.select(self.data@) =~= payload@);
            if old(self).cached_range is Some {
                lemma_select_stable(old(self).cached_range.unwrap(), old(self).data(), payload@);
            }
        }
        r
    }

    /// Returns the cached range when the slot is filled, else appends
    /// `payload`, caches its range and returns it.
    ///
    /// The caller decides what "the same value" means by calling
    /// [`Self::end_write`] whenever it moves on to a different value.
    pub fn get_or_write(&mut self, payload: &[u8]) -> (r: ByteRange)
        requires
            old(self).wf(),
        ensures
            final(self).wf(),
            r.valid_for(final(self).data()),
            match old(self).cached() {
                Some(c) => {
                    &&& *final(self) == *old(self)
                    &&& r.select(final(self).data()) == c
                },
                None => {
                    &&& final(self).data() == old(self).data() + payload@
                    &&& r.select(final(self).data()) == payload@
                    &&& final(self).cached() == Some(payload@)
                },
            },
    {
        match self.cached_range {
            Some(range) => range,
            None => {
                let r = self.write(payload);
                self.cached_range = Some(r);
                self.cached_content = Ghost(payload@);
                r
            },
        }
    }

    /// Appends the wire encoding of `tick` and returns its range.
    pub fn write_tick(&mut self, tick: RepliconTick) -> (r: ByteRange)
        requires
            old(self).wf(),
        ensures
            final(self).wf(),
            final(self).data() == old(self).data() + tick_bytes(tick),
            final(self).cached() == old(self).cached(),
            r.valid_for(final(self).data()),
            r.select(final(self).data()) == tick_bytes(tick),
    {
        let start = self.data.len();
        write_tick(&mut self.data, tick);
        let r = ByteRange { start, end: self.data.len() };
        proof {
            assert(r.select(self.data@) =~= tick_bytes(tick));
            if old(self).cached_range is Some {
                lemma_select_stable(
                    old(self).cached_range.unwrap(), old(self).data(), tick_bytes(tick));
            }
        }
        r
    }

    /// Appends the wire encoding of `entity` and returns its range.
    pub fn write_entity(&mut self, entity: Entity) -> (r: ByteRange)
        requires
            old(self).wf(),
        ensures
            final(self).wf(),
            final(self).data() == old(self).data() + entity_bytes(entity),
            final(self).cached() == old(self).cached(),
            r.valid_for(final(self).data()),
            r.select(final(self).data()) == entity_bytes(entity),
    {
        let start = self.data.len();
        write_entity(&mut self.data, entity);
        let r = ByteRange { start, end: self.data.len() };
        proof {
            assert(r.select(self.data@) =~= entity_bytes(entity));
            if old(self).cached_range is Some {
                lemma_select_stable(
                    old(self).cached_range.unwrap(), old(self).data(), entity_bytes(entity));
            }
        }
        r
    }

    /// Copies the bytes a range selects into `out`.
    pub fn extend_from_range(&self, out: &mut Vec<u8>, range: ByteRange)
        requires
            range.valid_for(self.data()),
        ensures
            final(out)@ == old(out)@ + range.select(self.data()),
    {
        let mut i: usize = range.start;
        while i < range.end
            invariant
                range.start <= i <= range.end,
                range.valid_for(self.data()),
                out@ == old(out)@ + self.data().subrange(range.start as int, i as int),
            decreases range.end - i,
        {
            self.data_push_at(out, i);
            i = i + 1;
            assert(out@ =~= old(out)@ + self.data().subrange(range.start as int, i as int));
        }
        assert(out@ =~= old(out)@ + range.select(self.data()));
    }

    /// Flattens the bytes a list of ranges selects, in order.
    pub fn iter_ranges(&self, ranges: &Vec<ByteRange>) -> (r: Vec<u8>)
        requires
            ranges_valid(ranges@, self.data()),
        ensures
            r@ == ranges_bytes(ranges@, self.data()),
    {
        let mut out: Vec<u8> = Vec::new();
        let mut i: usize = 0;
        while i < ranges.len()
            invariant
                i <= ranges@.len(),
                ranges_valid(ranges@, self.data()),
                out@ == ranges_bytes(ranges@.subrange(0, i as int), self.data()),
            decreases ranges@.len() - i,
        {
            proof {
                lemma_ranges_bytes_push(
                    ranges@.subrange(0, i as int), self.data(), ranges@[i as int]);
                assert(ranges@.subrange(0, i as int).push(ranges@[i as int])
                    =~= ranges@.subrange(0, i + 1));
            }
            self.extend_from_range(&mut out, ranges[i]);
            i = i + 1;
        }
        assert(ranges@.subrange(0, ranges@.len() as int) =~= ranges@);
        out
    }

    /// Current length of the buffer.
    pub fn len(&self) -> (r: usize)
        ensures
            r == self.data().len(),
    {
        self.data.len()
    }

    fn data_push_at(&self, out: &mut Vec<u8>, i: usize)
        requires
            i < self.data().len(),
        ensures
            final(out)@ == old(out)@ + seq![self.data()[i as int]],
    {
        let b = self.data[i];
        out.push(b);
        assert(out@ =~= old(out)@ + seq![self.data()[i as int]]);
    }
}

} // verus!
