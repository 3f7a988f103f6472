//! Parsing received replication messages.
//!
//! Each parser is total: malformed bytes yield `None` and the caller drops
//! the message, never the connection. The parse result of every function is
//! pinned by a specification parser over the raw bytes.

use vstd::prelude::*;
use crate::entity::{parse_entity, read_entity, Entity};
use crate::varint::{parse_varint, read_varint};
use crate::codec::{parse_tick, read_tick};

verus! {

/// Parses `n` entities in a row.
pub open spec fn spec_entities_n(s: Seq<u8>, pos: int, n: nat) -> Option<(Seq<Entity>, int)>
    decreases n,
{
    if n == 0 {
        Some((Seq::empty(), pos))
    } else {
        match parse_entity(s, pos) {
            None => None,
            Some((e, end)) => {
                if end <= pos || end > s.len() {
                    None
                } else {
                    match spec_entities_n(s, end, (n - 1) as nat) {
                        None => None,
                        Some((rest, fin)) => Some((seq![e] + rest, fin)),
                    }
                }
            },
        }
    }
}

/// Parses `n` (server, client) entity pairs in a row.
pub open spec fn spec_pairs_n(s: Seq<u8>, pos: int, n: nat) -> Option<(Seq<(Entity, Entity)>, int)>
    decreases n,
{
    if n == 0 {
        Some((Seq::empty(), pos))
    } else {
        match parse_entity(s, pos) {
            None => None,
            Some((server, mid)) => {
                if mid <= pos || mid > s.len() {
                    None
                } else {
                    match parse_entity(s, mid) {
                        None => None,
                        Some((client, end)) => {
                            if end <= mid || end > s.len() {
                                None
                            } else {
                                match spec_pairs_n(s, end, (n - 1) as nat) {
                                    None => None,
                                    Some((rest, fin)) => Some((seq![(server, client)] + rest, fin)),
                                }
                            }
                        },
                    }
                }
            },
        }
    }
}

/// Parses `n` component identifiers (varints that fit a `u64`) in a row.
pub open spec fn spec_fn_ids_n(s: Seq<u8>, pos: int, n: nat) -> Option<(Seq<u64>, int)>
    decreases n,
{
    if n == 0 {
        Some((Seq::empty(), pos))
    } else {
        match parse_varint(s, pos) {
            None => None,
            Some((v, end)) => {
                if v > u64::MAX || end <= pos || end > s.len() {
                    None
                } else {
                    match spec_fn_ids_n(s, end, (n - 1) as nat) {
                        None => None,
                        Some((rest, fin)) => Some((seq![v as u64] + rest, fin)),
                    }
                }
            },
        }
    }
}

/// One entity's removals entry: the entity, then the count of identifiers,
/// then the identifiers.
pub open spec fn spec_removal_entry(s: Seq<u8>, pos: int) -> Option<((Entity, Seq<u64>), int)> {
    match parse_entity(s, pos) {
        None => None,
        Some((e, mid)) => {
            match parse_varint(s, mid) {
                None => None,
                Some((n, p)) => {
                    if p <= pos || p > s.len() || n > s.len() - p {
                        None
                    } else {
                        match spec_fn_ids_n(s, p, n) {
                            None => None,
                            Some((ids, end)) => Some(((e, ids), end)),
                        }
                    }
                },
            }
        },
    }
}

/// Parses `n` removals entries in a row.
pub open spec fn spec_removals_n(s: Seq<u8>, pos: int, n: nat) -> Option<(Seq<(Entity, Seq<u64>)>, int)>
    decreases n,
{
    if n == 0 {
        Some((Seq::empty(), pos))
    } else {
        match spec_removal_entry(s, pos) {
            None => None,
            Some((entry, end)) => {
                if end <= pos || end > s.len() {
                    None
                } else {
                    match spec_removals_n(s, end, (n - 1) as nat) {
                        None => None,
                        Some((rest, fin)) => Some((seq![entry] + rest, fin)),
                    }
                }
            },
        }
    }
}

/// Parses removals entries until the end of the message.
pub open spec fn spec_removals_to_end(s: Seq<u8>, pos: int) -> Option<Seq<(Entity, Seq<u64>)>>
    decreases s.len() - pos,
{
    if pos == s.len() {
        Some(Seq::empty())
    } else {
        match spec_removal_entry(s, pos) {
            None => None,
            Some((entry, end)) => {
                if end <= pos || end > s.len() {
                    None
                } else {
                    match spec_removals_to_end(s, end) {
                        None => None,
                        Some(rest) => Some(seq![entry] + rest),
                    }
                }
            },
        }
    }
}

/// Parses entities until the end of the message.
pub open spec fn spec_entities_to_end(s: Seq<u8>, pos: int) -> Option<Seq<Entity>>
    decreases s.len() - pos,
{
    if pos == s.len() {
        Some(Seq::empty())
    } else {
        match parse_entity(s, pos) {
            None => None,
            Some((e, end)) => {
                if end <= pos || end > s.len() {
                    None
                } else {
                    match spec_entities_to_end(s, end) {
                        None => None,
                        Some(rest) => Some(seq![e] + rest),
                    }
                }
            },
        }
    }
}

/// One component chunk: the codec identifier, the payload length, then the
/// payload bytes.
pub open spec fn spec_chunk(s: Seq<u8>, pos: int) -> Option<((u64, Seq<u8>), int)> {
    match parse_varint(s, pos) {
        None => None,
        Some((id, mid)) => {
            if id > u64::MAX {
                None
            } else {
                match parse_varint(s, mid) {
                    None => None,
                    Some((len, p)) => {
                        if p <= pos || p > s.len() || len > s.len() - p {
                            None
                        } else {
                            Some(((id as u64, s.subrange(p, p + len)), p + len))
                        }
                    },
                }
            }
        },
    }
}

/// Parses `n` component chunks in a row.
pub open spec fn spec_chunks_n(s: Seq<u8>, pos: int, n: nat) -> Option<(Seq<(u64, Seq<u8>)>, int)>
    decreases n,
{
    if n == 0 {
        Some((Seq::empty(), pos))
    } else {
        match spec_chunk(s, pos) {
            None => None,
            Some((c, end)) => {
                if end <= pos || end > s.len() {
                    None
                } else {
                    match spec_chunks_n(s, end, (n - 1) as nat) {
                        None => None,
                        Some((rest, fin)) => Some((seq![c] + rest, fin)),
                    }
                }
            },
        }
    }
}

/// Parses component chunks until exactly `limit`.
pub open spec fn spec_chunks_until(s: Seq<u8>, pos: int, limit: int) -> Option<Seq<(u64, Seq<u8>)>>
    decreases limit - pos,
{
    if pos == limit {
        Some(Seq::empty())
    } else if pos > limit {
        None
    } else {
        match spec_chunk(s, pos) {
            None => None,
            Some((c, end)) => {
                if end <= pos || end > limit {
                    None
                } else {
                    match spec_chunks_until(s, end, limit) {
                        None => None,
                        Some(rest) => Some(seq![c] + rest),
                    }
                }
            },
        }
    }
}

/// One changes entry: the entity, the component count, then the chunks.
pub open spec fn spec_change_entry(s: Seq<u8>, pos: int) -> Option<((Entity, Seq<(u64, Seq<u8>)>), int)> {
    match parse_entity(s, pos) {
        None => None,
        Some((e, mid)) => {
            match parse_varint(s, mid) {
                None => None,
                Some((n, p)) => {
                    if p <= pos || p > s.len() || n > s.len() - p {
                        None
                    } else {
                        match spec_chunks_n(s, p, n) {
                            None => None,
                            Some((cs, end)) => Some(((e, cs), end)),
                        }
                    }
                },
            }
        },
    }
}

/// Parses changes entries until the end of the message.
pub open spec fn spec_changes_to_end(s: Seq<u8>, pos: int) -> Option<Seq<(Entity, Seq<(u64, Seq<u8>)>)>>
    decreases s.len() - pos,
{
    if pos == s.len() {
        Some(Seq::empty())
    } else {
        match spec_change_entry(s, pos) {
            None => None,
            Some((entry, end)) => {
                if end <= pos || end > s.len() {
                    None
                } else {
                    match spec_changes_to_end(s, end) {
                        None => None,
                        Some(rest) => Some(seq![entry] + rest),
                    }
                }
            },
        }
    }
}

/// Spec-level shape of a parsed change message.
pub type ChangeView = (
    u32,
    Seq<(Entity, Entity)>,
    Seq<Entity>,
    Seq<(Entity, Seq<u64>)>,
    Seq<(Entity, Seq<(u64, Seq<u8>)>)>,
);

/// Parses a whole change message: the flag byte, the tick, then each
/// present section in canonical order, counts in front of every present
/// section but the last, which runs to the end of the message.
pub open spec fn spec_change_message(s: Seq<u8>) -> Option<ChangeView> {
    if s.len() == 0 || s[0] > 15 {
        None
    } else {
        let has_mappings = s[0] % 2 == 1;
        let has_despawns = (s[0] / 2) % 2 == 1;
        let has_removals = (s[0] / 4) % 2 == 1;
        let has_changes = (s[0] / 8) % 2 == 1;
        match parse_tick(s, 1) {
            None => None,
            Some((tick, p0)) => {
                let m = spec_mappings_section(s, p0, has_mappings);
                match m {
                    None => None,
                    Some((mappings, p1)) => {
                        if has_despawns && !has_removals && !has_changes {
                            match spec_entities_to_end(s, p1) {
                                None => None,
                                Some(despawns) => Some(
                                    (tick, mappings, despawns, Seq::empty(), Seq::empty()),
                                ),
                            }
                        } else {
                            let d = spec_despawns_counted(s, p1, has_despawns);
                            match d {
                                None => None,
                                Some((despawns, p2)) => {
                                    if has_removals && !has_changes {
                                        match spec_removals_to_end(s, p2) {
                                            None => None,
                                            Some(removals) => Some(
                                                (tick, mappings, despawns, removals, Seq::empty()),
                                            ),
                                        }
                                    } else {
                                        let r = spec_removals_counted(s, p2, has_removals);
                                        match r {
                                            None => None,
                                            Some((removals, p3)) => {
                                                if has_changes {
                                                    match spec_changes_to_end(s, p3) {
                                                        None => None,
                                                        Some(changes) => Some(
                                                            (tick, mappings, despawns, removals, changes),
                                                        ),
                                                    }
                                                } else if p3 == s.len() {
                                                    Some((tick, mappings, despawns, removals, Seq::empty()))
                                                } else {
                                                    None
                                                }
                                            },
                                        }
                                    }
                                },
                            }
                        }
                    },
                }
            },
        }
    }
}

/// The mappings section, which always carries its count when present.
pub open spec fn spec_mappings_section(s: Seq<u8>, pos: int, present: bool) -> Option<(Seq<(Entity, Entity)>, int)> {
    if !present {
        Some((Seq::empty(), pos))
    } else {
        match parse_varint(s, pos) {
            None => None,
            Some((n, p)) => {
                if p <= pos || p > s.len() || 2 * n > s.len() - p {
                    None
                } else {
                    spec_pairs_n(s, p, n)
                }
            },
        }
    }
}

/// A despawns section followed by more sections, so its count is present.
pub open spec fn spec_despawns_counted(s: Seq<u8>, pos: int, present: bool) -> Option<(Seq<Entity>, int)> {
    if !present {
        Some((Seq::empty(), pos))
    } else {
        match parse_varint(s, pos) {
            None => None,
            Some((n, p)) => {
                if p <= pos || p > s.len() || n > s.len() - p {
                    None
                } else {
                    spec_entities_n(s, p, n)
                }
            },
        }
    }
}

/// A removals section followed by more sections, so its count is present.
pub open spec fn spec_removals_counted(s: Seq<u8>, pos: int, present: bool) -> Option<(Seq<(Entity, Seq<u64>)>, int)> {
    if !present {
        Some((Seq::empty(), pos))
    } else {
        match parse_varint(s, pos) {
            None => None,
            Some((n, p)) => {
                if p <= pos || p > s.len() || n > s.len() - p {
                    None
                } else {
                    spec_removals_n(s, p, n)
                }
            },
        }
    }
}

/// Spec-level shape of a parsed mutate message.
pub type MutateView = (u32, u16, Seq<(Entity, Seq<(u64, Seq<u8>)>)>);

/// Parses mutate entries until the end of the message: each is an entity,
/// the byte length of its chunks, then chunks filling exactly that length.
pub open spec fn spec_mutate_entries(s: Seq<u8>, pos: int) -> Option<Seq<(Entity, Seq<(u64, Seq<u8>)>)>>
    decreases s.len() - pos,
{
    if pos == s.len() {
        Some(Seq::empty())
    } else {
        match parse_entity(s, pos) {
            None => None,
            Some((e, mid)) => {
                match parse_varint(s, mid) {
                    None => None,
                    Some((size, p)) => {
                        if p <= pos || p > s.len() || size > s.len() - p {
                            None
                        } else {
                            match spec_chunks_until(s, p, p + size) {
                                None => None,
                                Some(cs) => {
                                    match spec_mutate_entries(s, p + size) {
                                        None => None,
                                        Some(rest) => Some(seq![(e, cs)] + rest),
                                    }
                                },
                            }
                        }
                    },
                }
            },
        }
    }
}

/// Parses a whole mutate message: the tick, the acknowledgment index, then
/// the mutated entities.
pub open spec fn spec_mutate_message(s: Seq<u8>) -> Option<MutateView> {
    match parse_tick(s, 0) {
        None => None,
        Some((tick, p0)) => {
            match parse_varint(s, p0) {
                None => None,
                Some((index, p1)) => {
                    if index > u16::MAX || p1 <= p0 || p1 > s.len() {
                        None
                    } else {
                        match spec_mutate_entries(s, p1) {
                            None => None,
                            Some(entries) => Some((tick, index as u16, entries)),
                        }
                    }
                },
            }
        },
    }
}

/// Every component chunk the collection pass writes parses back to the
/// codec identifier and payload it was written from, wherever it sits in a
/// larger message.
pub proof fn lemma_parse_chunk_of_encoding(s: Seq<u8>, pos: int, fns_id: u64, payload: Seq<u8>)
    requires
        0 <= pos,
        payload.len() <= u64::MAX,
        pos + crate::collect::chunk_bytes(fns_id, payload).len() <= s.len(),
        s.subrange(pos, pos + crate::collect::chunk_bytes(fns_id, payload).len())
            == crate::collect::chunk_bytes(fns_id, payload),
    ensures
        spec_chunk(s, pos) == Some(
            ((fns_id, payload), pos + crate::collect::chunk_bytes(fns_id, payload).len()),
        ),
{
    let head = crate::varint::varint_bytes(fns_id as nat);
    let size = crate::varint::varint_bytes(payload.len() as nat);
    let enc = crate::collect::chunk_bytes(fns_id, payload);
    let sub = s.subrange(pos, pos + enc.len() as int);
    assert(enc =~= head + size + payload);
    assert(s.subrange(pos, pos + head.len() as int) =~= head) by {
        assert forall|i: int| 0 <= i < head.len() implies s[pos + i] == head[i] by {
            assert(s[pos + i] == sub[i]);
        }
    }
    crate::varint::lemma_parse_of_encoding(s, pos, fns_id as nat);
    let mid = pos + head.len() as int;
    assert(s.subrange(mid, mid + size.len() as int) =~= size) by {
        assert forall|i: int| 0 <= i < size.len() implies s[mid + i] == size[i] by {
            assert(s[mid + i] == sub[head.len() + i]);
        }
    }
    crate::varint::lemma_parse_of_encoding(s, mid, payload.len() as nat);
    let p = mid + size.len() as int;
    assert(s.subrange(p, p + payload.len() as int) =~= payload) by {
        assert forall|i: int| 0 <= i < payload.len() implies s[p + i] == payload[i] by {
            assert(s[p + i] == sub[head.len() + size.len() + i]);
        }
    }
}

/// Wire bytes of a list of component chunks, in order.
pub open spec fn chunks_wire_bytes(cs: Seq<(u64, Seq<u8>)>) -> Seq<u8>
    decreases cs.len(),
{
    if cs.len() == 0 {
        Seq::empty()
    } else {
        crate::collect::chunk_bytes(cs[0].0, cs[0].1) + chunks_wire_bytes(cs.drop_first())
    }
}

/// Wire bytes of a list of mutate entries, in order: each entity, the byte
/// length of its chunks, then the chunks.
pub open spec fn mutate_wire_bytes(entries: Seq<(Entity, Seq<(u64, Seq<u8>)>)>) -> Seq<u8>
    decreases entries.len(),
{
    if entries.len() == 0 {
        Seq::empty()
    } else {
        crate::entity::entity_bytes(entries[0].0)
            + crate::varint::varint_bytes(chunks_wire_bytes(entries[0].1).len() as nat)
            + chunks_wire_bytes(entries[0].1) + mutate_wire_bytes(entries.drop_first())
    }
}

/// Every payload of the chunk list fits the wire's length field.
pub open spec fn chunks_bounded(cs: Seq<(u64, Seq<u8>)>) -> bool {
    forall|k: int| 0 <= k < cs.len() ==> (#[trigger] cs[k]).1.len() <= u64::MAX
}

/// A chunk list laid down by the wire grammar parses back to itself when
/// its bytes fill the window exactly.
pub proof fn lemma_parse_chunks_until_of_encoding(
    s: Seq<u8>,
    pos: int,
    cs: Seq<(u64, Seq<u8>)>,
)
    requires
        0 <= pos,
        chunks_bounded(cs),
        pos + chunks_wire_bytes(cs).len() <= s.len(),
        s.subrange(pos, pos + chunks_wire_bytes(cs).len()) == chunks_wire_bytes(cs),
    ensures
        spec_chunks_until(s, pos, pos + chunks_wire_bytes(cs).len()) == Some(cs),
    decreases cs.len(),
{
    let whole = chunks_wire_bytes(cs);
    let limit = pos + whole.len() as int;
    if cs.len() == 0 {
        assert(Some(Seq::<(u64, Seq<u8>)>::empty()) == Some(cs)) by {
            assert(cs =~= Seq::<(u64, Seq<u8>)>::empty());
        }
    } else {
        let head = crate::collect::chunk_bytes(cs[0].0, cs[0].1);
        let rest = chunks_wire_bytes(cs.drop_first());
        assert(whole =~= head + rest);
        let sub = s.subrange(pos, limit);
        assert(s.subrange(pos, pos + head.len() as int) =~= head) by {
            assert forall|i: int| 0 <= i < head.len() implies s[pos + i] == head[i] by {
                assert(s[pos + i] == sub[i]);
            }
        }
        assert(cs[0].1.len() <= u64::MAX);
        lemma_parse_chunk_of_encoding(s, pos, cs[0].0, cs[0].1);
        let end = pos + head.len() as int;
        assert(head.len() >= 2);
        assert(s.subrange(end, end + rest.len() as int) =~= rest) by {
            assert forall|i: int| 0 <= i < rest.len() implies s[end + i] == rest[i] by {
                assert(s[end + i] == sub[head.len() + i]);
            }
        }
        assert(chunks_bounded(cs.drop_first())) by {
            assert forall|k: int| 0 <= k < cs.drop_first().len() implies
                (#[trigger] cs.drop_first()[k]).1.len() <= u64::MAX by {
                assert(cs.drop_first()[k] == cs[k + 1]);
            }
        }
        lemma_parse_chunks_until_of_encoding(s, end, cs.drop_first());
        assert(spec_chunks_until(s, pos, limit)
            == Some(seq![cs[0]] + cs.drop_first()));
        assert(seq![cs[0]] + cs.drop_first() =~= cs);
    }
}

/// Every mutate entry's chunks fit the wire's length fields.
pub open spec fn entries_bounded(entries: Seq<(Entity, Seq<(u64, Seq<u8>)>)>) -> bool {
    forall|k: int| 0 <= k < entries.len() ==> {
        &&& chunks_bounded((#[trigger] entries[k]).1)
        &&& chunks_wire_bytes(entries[k].1).len() <= u64::MAX
    }
}

/// A mutate entry list laid down by the wire grammar parses back to itself
/// when its bytes run exactly to the end of the message.
pub proof fn lemma_parse_mutate_entries_of_encoding(
    s: Seq<u8>,
    pos: int,
    entries: Seq<(Entity, Seq<(u64, Seq<u8>)>)>,
)
    requires
        0 <= pos,
        entries_bounded(entries),
        pos + mutate_wire_bytes(entries).len() == s.len(),
        s.subrange(pos, s.len() as int) == mutate_wire_bytes(entries),
    ensures
        spec_mutate_entries(s, pos) == Some(entries),
    decreases entries.len(),
{
    if entries.len() == 0 {
        assert(Some(Seq::<(Entity, Seq<(u64, Seq<u8>)>)>::empty()) == Some(entries)) by {
            assert(entries =~= Seq::<(Entity, Seq<(u64, Seq<u8>)>)>::empty());
        }
    } else {
        let e = entries[0].0;
        let cs = entries[0].1;
        let ebytes = crate::entity::entity_bytes(e);
        let body = chunks_wire_bytes(cs);
        let size = crate::varint::varint_bytes(body.len() as nat);
        let rest = mutate_wire_bytes(entries.drop_first());
        let whole = mutate_wire_bytes(entries);
        assert(whole =~= ebytes + size + body + rest);
        let sub = s.subrange(pos, s.len() as int);
        assert(s.subrange(pos, pos + ebytes.len() as int) =~= ebytes) by {
            assert forall|i: int| 0 <= i < ebytes.len() implies s[pos + i] == ebytes[i] by {
                assert(s[pos + i] == sub[i]);
            }
        }
        crate::entity::lemma_parse_entity_of_encoding(s, pos, e);
        let mid = pos + ebytes.len() as int;
        assert(s.subrange(mid, mid + size.len() as int) =~= size) by {
            assert forall|i: int| 0 <= i < size.len() implies s[mid + i] == size[i] by {
                assert(s[mid + i] == sub[ebytes.len() + i]);
            }
        }
        crate::varint::lemma_parse_of_encoding(s, mid, body.len() as nat);
        let p = mid + size.len() as int;
        assert(s.subrange(p, p + body.len() as int) =~= body) by {
            assert forall|i: int| 0 <= i < body.len() implies s[p + i] == body[i] by {
                assert(s[p + i] == sub[ebytes.len() + size.len() + i]);
            }
        }
        assert(chunks_bounded(cs));
        lemma_parse_chunks_until_of_encoding(s, p, cs);
        let next = p + body.len() as int;
        assert(s.subrange(next, s.len() as int) =~= rest) by {
            assert forall|i: int| 0 <= i < rest.len() implies s[next + i] == rest[i] by {
                assert(s[next + i] == sub[ebytes.len() + size.len() + body.len() + i]);
            }
        }
        assert(entries_bounded(entries.drop_first())) by {
            assert forall|k: int| 0 <= k < entries.drop_first().len() implies {
                &&& chunks_bounded((#[trigger] entries.drop_first()[k]).1)
                &&& chunks_wire_bytes(entries.drop_first()[k].1).len() <= u64::MAX
            } by {
                assert(entries.drop_first()[k] == entries[k + 1]);
            }
        }
        lemma_parse_mutate_entries_of_encoding(s, next, entries.drop_first());
        assert(spec_mutate_entries(s, pos) == Some(seq![entries[0]] + entries.drop_first()));
        assert(seq![entries[0]] + entries.drop_first() =~= entries);
    }
}

/// The whole mutate message round trip: a message laid down by the wire
/// grammar — the tick, the acknowledgment index, then the entries — parses
/// back to exactly what it was built from.
pub proof fn lemma_parse_mutate_message_of_encoding(
    tick: crate::tick::RepliconTick,
    index: u16,
    entries: Seq<(Entity, Seq<(u64, Seq<u8>)>)>,
)
    requires
        entries_bounded(entries),
    ensures
        spec_mutate_message(
            crate::codec::tick_bytes(tick) + crate::varint::varint_bytes(index as nat)
                + mutate_wire_bytes(entries),
        ) == Some((tick.spec_value(), index, entries)),
{
    let tbytes = crate::codec::tick_bytes(tick);
    let ibytes = crate::varint::varint_bytes(index as nat);
    let body = mutate_wire_bytes(entries);
    let s = tbytes + ibytes + body;
    assert(s.subrange(0, tbytes.len() as int) =~= tbytes);
    crate::codec::lemma_parse_tick_of_encoding(s, 0, tick);
    let mid = tbytes.len() as int;
    assert(s.subrange(mid, mid + ibytes.len() as int) =~= ibytes);
    crate::varint::lemma_parse_of_encoding(s, mid, index as nat);
    let p = mid + ibytes.len() as int;
    assert(s.subrange(p, s.len() as int) =~= body);
    lemma_parse_mutate_entries_of_encoding(s, p, entries);
}

/// A range list whose every range selects a chunk encoding flattens to the
/// chunk list's wire bytes.
pub proof fn lemma_ranges_as_chunks(
    ranges: Seq<crate::buffer::ByteRange>,
    data: Seq<u8>,
    cs: Seq<(u64, Seq<u8>)>,
)
    requires
        ranges.len() == cs.len(),
        forall|j: int| 0 <= j < ranges.len()
            ==> (#[trigger] ranges[j]).select(data)
                == crate::collect::chunk_bytes(cs[j].0, cs[j].1),
    ensures
        crate::buffer::ranges_bytes(ranges, data) == chunks_wire_bytes(cs),
    decreases ranges.len(),
{
    if ranges.len() > 0 {
        assert forall|j: int| 0 <= j < ranges.drop_first().len() implies
            (#[trigger] ranges.drop_first()[j]).select(data)
                == crate::collect::chunk_bytes(
                cs.drop_first()[j].0, cs.drop_first()[j].1) by {
            assert(ranges.drop_first()[j] == ranges[j + 1]);
            assert(cs.drop_first()[j] == cs[j + 1]);
            assert(ranges[j + 1].select(data)
                == crate::collect::chunk_bytes(cs[j + 1].0, cs[j + 1].1));
        }
        lemma_ranges_as_chunks(ranges.drop_first(), data, cs.drop_first());
        assert(ranges[0].select(data) == crate::collect::chunk_bytes(cs[0].0, cs[0].1));
    }
}

/// A mutate message whose entity ranges select entity encodings and whose
/// component ranges select chunk encodings serializes to exactly the wire
/// bytes of those values; with the round trip above, parsing the
/// serialized message yields the values back.
pub proof fn lemma_mutations_as_wire(
    ms: Seq<(crate::buffer::ByteRange, Seq<crate::buffer::ByteRange>)>,
    data: Seq<u8>,
    values: Seq<(Entity, Seq<(u64, Seq<u8>)>)>,
)
    requires
        ms.len() == values.len(),
        forall|k: int| 0 <= k < ms.len() ==> {
            &&& (#[trigger] ms[k]).0.select(data)
                == crate::entity::entity_bytes(values[k].0)
            &&& ms[k].1.len() == values[k].1.len()
            &&& forall|j: int| 0 <= j < ms[k].1.len()
                ==> (#[trigger] ms[k].1[j]).select(data)
                    == crate::collect::chunk_bytes(values[k].1[j].0, values[k].1[j].1)
        },
    ensures
        crate::mutate_message::mutations_bytes(ms, data) == mutate_wire_bytes(values),
    decreases ms.len(),
{
    if ms.len() > 0 {
        lemma_ranges_as_chunks(ms[0].1, data, values[0].1);
        assert forall|k: int| 0 <= k < ms.drop_first().len() implies {
            &&& (#[trigger] ms.drop_first()[k]).0.select(data)
                == crate::entity::entity_bytes(values.drop_first()[k].0)
            &&& ms.drop_first()[k].1.len() == values.drop_first()[k].1.len()
            &&& forall|j: int| 0 <= j < ms.drop_first()[k].1.len()
                ==> (#[trigger] ms.drop_first()[k].1[j]).select(data)
                    == crate::collect::chunk_bytes(
                    values.drop_first()[k].1[j].0, values.drop_first()[k].1[j].1)
        } by {
            assert(ms.drop_first()[k] == ms[k + 1]);
            assert(values.drop_first()[k] == values[k + 1]);
            assert(ms[k + 1].0.select(data)
                == crate::entity::entity_bytes(values[k + 1].0));
            assert forall|j: int| 0 <= j < ms.drop_first()[k].1.len() implies
                (#[trigger] ms.drop_first()[k].1[j]).select(data)
                    == crate::collect::chunk_bytes(
                    values.drop_first()[k].1[j].0, values.drop_first()[k].1[j].1) by {
                assert(ms[k + 1].1[j].select(data)
                    == crate::collect::chunk_bytes(values[k + 1].1[j].0, values[k + 1].1[j].1));
            }
        }
        lemma_mutations_as_wire(ms.drop_first(), data, values.drop_first());
        assert(crate::mutate_message::mutations_bytes(ms, data)
            =~= mutate_wire_bytes(values));
    } else {
        assert(crate::mutate_message::mutations_bytes(ms, data)
            =~= mutate_wire_bytes(values));
    }
}

/// The serialize-parse round trip of a whole mutate message: a mutate
/// message whose ranges select the encodings of its entities and component
/// chunks, finalized against a tick range holding a tick's encoding,
/// parses back to exactly that tick, its acknowledgment index and those
/// values.
pub proof fn lemma_mutate_serialize_parse_round_trip(
    m: crate::mutate_message::MutateMessage,
    data: Seq<u8>,
    t: crate::buffer::ByteRange,
    tick: crate::tick::RepliconTick,
    index: u16,
    values: Seq<(Entity, Seq<(u64, Seq<u8>)>)>,
)
    requires
        t.select(data) == crate::codec::tick_bytes(tick),
        entries_bounded(values),
        m.spec_mutations().len() == values.len(),
        forall|k: int| 0 <= k < m.spec_mutations().len() ==> {
            &&& (#[trigger] m.spec_mutations()[k]).0.select(data)
                == crate::entity::entity_bytes(values[k].0)
            &&& m.spec_mutations()[k].1.len() == values[k].1.len()
            &&& forall|j: int| 0 <= j < m.spec_mutations()[k].1.len()
                ==> (#[trigger] m.spec_mutations()[k].1[j]).select(data)
                    == crate::collect::chunk_bytes(values[k].1[j].0, values[k].1[j].1)
        },
    ensures
        spec_mutate_message(m.spec_bytes(data, t, index))
            == Some((tick.spec_value(), index, values)),
{
    lemma_mutations_as_wire(m.spec_mutations(), data, values);
    assert(m.spec_bytes(data, t, index)
        =~= crate::codec::tick_bytes(tick) + crate::varint::varint_bytes(index as nat)
            + mutate_wire_bytes(values));
    lemma_parse_mutate_message_of_encoding(tick, index, values);
}

/// Wire bytes of a list of entities, in order.
pub open spec fn entities_wire_bytes(es: Seq<Entity>) -> Seq<u8>
    decreases es.len(),
{
    if es.len() == 0 {
        Seq::empty()
    } else {
        crate::entity::entity_bytes(es[0]) + entities_wire_bytes(es.drop_first())
    }
}

pub proof fn lemma_entities_wire_snoc(es: Seq<Entity>, e: Entity)
    ensures
        entities_wire_bytes(es.push(e))
            == entities_wire_bytes(es) + crate::entity::entity_bytes(e),
    decreases es.len(),
{
    let tail = crate::entity::entity_bytes(e);
    if es.len() == 0 {
        let p = es.push(e);
        assert(p[0] == e);
        assert(p.drop_first() =~= Seq::<Entity>::empty());
        assert(entities_wire_bytes(p.drop_first()) =~= Seq::<u8>::empty());
        assert(entities_wire_bytes(p) =~= tail);
        assert(entities_wire_bytes(es) + tail =~= tail);
    } else {
        assert(es.push(e).drop_first() =~= es.drop_first().push(e));
        assert(es.push(e)[0] == es[0]);
        lemma_entities_wire_snoc(es.drop_first(), e);
        assert(entities_wire_bytes(es.push(e)) =~= entities_wire_bytes(es) + tail);
    }
}

/// An entity list laid down by the wire grammar parses back to itself when
/// its bytes run exactly to the end of the message.
pub proof fn lemma_parse_entities_to_end_of_encoding(s: Seq<u8>, pos: int, es: Seq<Entity>)
    requires
        0 <= pos,
        pos + entities_wire_bytes(es).len() == s.len(),
        s.subrange(pos, s.len() as int) == entities_wire_bytes(es),
    ensures
        spec_entities_to_end(s, pos) == Some(es),
    decreases es.len(),
{
    if es.len() == 0 {
        assert(Some(Seq::<Entity>::empty()) == Some(es)) by {
            assert(es =~= Seq::<Entity>::empty());
        }
    } else {
        let head = crate::entity::entity_bytes(es[0]);
        let rest = entities_wire_bytes(es.drop_first());
        let whole = entities_wire_bytes(es);
        assert(whole =~= head + rest);
        let sub = s.subrange(pos, s.len() as int);
        assert(s.subrange(pos, pos + head.len() as int) =~= head) by {
            assert forall|i: int| 0 <= i < head.len() implies s[pos + i] == head[i] by {
                assert(s[pos + i] == sub[i]);
            }
        }
        crate::entity::lemma_parse_entity_of_encoding(s, pos, es[0]);
        let next = pos + head.len() as int;
        assert(s.subrange(next, s.len() as int) =~= rest) by {
            assert forall|i: int| 0 <= i < rest.len() implies s[next + i] == rest[i] by {
                assert(s[next + i] == sub[head.len() + i]);
            }
        }
        lemma_parse_entities_to_end_of_encoding(s, next, es.drop_first());
        assert(spec_entities_to_end(s, pos) == Some(seq![es[0]] + es.drop_first()));
        assert(seq![es[0]] + es.drop_first() =~= es);
    }
}

/// The serialize-parse round trip of a despawn-only change message: a
/// change message carrying nothing but despawn chunks that flatten to the
/// given entities' encodings, finalized against a tick range holding a
/// tick's encoding, parses back to exactly that tick and those despawned
/// entities. Merging adjacent despawn chunks never changes what the client
/// decodes, since only the flattened bytes reach the wire.
pub proof fn lemma_despawn_message_round_trip(
    m: crate::change_message::ChangeMessage,
    data: Seq<u8>,
    t: crate::buffer::ByteRange,
    tick: crate::tick::RepliconTick,
    despawned: Seq<Entity>,
)
    requires
        t.select(data) == crate::codec::tick_bytes(tick),
        m.spec_mappings().0.spec_len() == 0,
        m.spec_removals().len() == 0,
        m.spec_changes().len() == 0,
        m.spec_despawns().len() > 0,
        crate::buffer::ranges_bytes(m.spec_despawns(), data) == entities_wire_bytes(despawned),
    ensures
        spec_change_message(m.spec_bytes(data, t))
            == Some((
            tick.spec_value(),
            Seq::<(Entity, Entity)>::empty(),
            despawned,
            Seq::<(Entity, Seq<u64>)>::empty(),
            Seq::<(Entity, Seq<(u64, Seq<u8>)>)>::empty(),
        )),
{
    let f = m.spec_flags();
    assert(f.spec_bits() == 2);
    let tbytes = crate::codec::tick_bytes(tick);
    let body = entities_wire_bytes(despawned);
    let s = m.spec_bytes(data, t);
    assert(s =~= seq![2u8] + tbytes + body);
    assert(s[0] == 2);
    assert(s.subrange(1, 1 + tbytes.len() as int) =~= tbytes);
    crate::codec::lemma_parse_tick_of_encoding(s, 1, tick);
    let p = 1 + tbytes.len() as int;
    assert(s.subrange(p, s.len() as int) =~= body);
    lemma_parse_entities_to_end_of_encoding(s, p, despawned);
}

/// Every chunk takes at least its two length fields on the wire.
pub proof fn lemma_chunks_wire_len(cs: Seq<(u64, Seq<u8>)>)
    ensures
        chunks_wire_bytes(cs).len() >= 2 * cs.len(),
    decreases cs.len(),
{
    if cs.len() > 0 {
        lemma_chunks_wire_len(cs.drop_first());
    }
}

/// A chunk list laid down by the wire grammar parses back to itself under
/// its own count.
pub proof fn lemma_parse_chunks_n_of_encoding(s: Seq<u8>, pos: int, cs: Seq<(u64, Seq<u8>)>)
    requires
        0 <= pos,
        chunks_bounded(cs),
        pos + chunks_wire_bytes(cs).len() <= s.len(),
        s.subrange(pos, pos + chunks_wire_bytes(cs).len()) == chunks_wire_bytes(cs),
    ensures
        spec_chunks_n(s, pos, cs.len() as nat)
            == Some((cs, pos + chunks_wire_bytes(cs).len())),
    decreases cs.len(),
{
    let whole = chunks_wire_bytes(cs);
    if cs.len() == 0 {
        assert(Some((Seq::<(u64, Seq<u8>)>::empty(), pos)) == Some((cs, pos))) by {
            assert(cs =~= Seq::<(u64, Seq<u8>)>::empty());
        }
    } else {
        let head = crate::collect::chunk_bytes(cs[0].0, cs[0].1);
        let rest = chunks_wire_bytes(cs.drop_first());
        assert(whole =~= head + rest);
        let sub = s.subrange(pos, pos + whole.len() as int);
        assert(s.subrange(pos, pos + head.len() as int) =~= head) by {
            assert forall|i: int| 0 <= i < head.len() implies s[pos + i] == head[i] by {
                assert(s[pos + i] == sub[i]);
            }
        }
        assert(cs[0].1.len() <= u64::MAX);
        lemma_parse_chunk_of_encoding(s, pos, cs[0].0, cs[0].1);
        let end = pos + head.len() as int;
        assert(head.len() >= 2);
        assert(s.subrange(end, end + rest.len() as int) =~= rest) by {
            assert forall|i: int| 0 <= i < rest.len() implies s[end + i] == rest[i] by {
                assert(s[end + i] == sub[head.len() + i]);
            }
        }
        assert(chunks_bounded(cs.drop_first())) by {
            assert forall|k: int| 0 <= k < cs.drop_first().len() implies
                (#[trigger] cs.drop_first()[k]).1.len() <= u64::MAX by {
                assert(cs.drop_first()[k] == cs[k + 1]);
            }
        }
        lemma_parse_chunks_n_of_encoding(s, end, cs.drop_first());
        assert(spec_chunks_n(s, pos, cs.len() as nat)
            == Some((seq![cs[0]] + cs.drop_first(), pos + whole.len())));
        assert(seq![cs[0]] + cs.drop_first() =~= cs);
    }
}

/// Wire bytes of a list of changes entries, in order: each entity, its
/// component count, then its chunks.
pub open spec fn changes_wire_bytes(entries: Seq<(Entity, Seq<(u64, Seq<u8>)>)>) -> Seq<u8>
    decreases entries.len(),
{
    if entries.len() == 0 {
        Seq::empty()
    } else {
        crate::entity::entity_bytes(entries[0].0)
            + crate::varint::varint_bytes(entries[0].1.len() as nat)
            + chunks_wire_bytes(entries[0].1) + changes_wire_bytes(entries.drop_first())
    }
}

/// A changes entry list laid down by the wire grammar parses back to
/// itself when its bytes run exactly to the end of the message.
pub proof fn lemma_parse_changes_to_end_of_encoding(
    s: Seq<u8>,
    pos: int,
    entries: Seq<(Entity, Seq<(u64, Seq<u8>)>)>,
)
    requires
        0 <= pos,
        entries_bounded(entries),
        pos + changes_wire_bytes(entries).len() == s.len(),
        s.subrange(pos, s.len() as int) == changes_wire_bytes(entries),
    ensures
        spec_changes_to_end(s, pos) == Some(entries),
    decreases entries.len(),
{
    if entries.len() == 0 {
        assert(Some(Seq::<(Entity, Seq<(u64, Seq<u8>)>)>::empty()) == Some(entries)) by {
            assert(entries =~= Seq::<(Entity, Seq<(u64, Seq<u8>)>)>::empty());
        }
    } else {
        let e = entries[0].0;
        let cs = entries[0].1;
        let ebytes = crate::entity::entity_bytes(e);
        let count = crate::varint::varint_bytes(cs.len() as nat);
        let body = chunks_wire_bytes(cs);
        let rest = changes_wire_bytes(entries.drop_first());
        let whole = changes_wire_bytes(entries);
        assert(whole =~= ebytes + count + body + rest);
        let sub = s.subrange(pos, s.len() as int);
        assert(s.subrange(pos, pos + ebytes.len() as int) =~= ebytes) by {
            assert forall|i: int| 0 <= i < ebytes.len() implies s[pos + i] == ebytes[i] by {
                assert(s[pos + i] == sub[i]);
            }
        }
        crate::entity::lemma_parse_entity_of_encoding(s, pos, e);
        let mid = pos + ebytes.len() as int;
        assert(s.subrange(mid, mid + count.len() as int) =~= count) by {
            assert forall|i: int| 0 <= i < count.len() implies s[mid + i] == count[i] by {
                assert(s[mid + i] == sub[ebytes.len() + i]);
            }
        }
        assert(cs.len() <= u64::MAX) by {
            lemma_chunks_wire_len(cs);
            assert(chunks_wire_bytes(cs).len() <= s.len() - pos);
        }
        crate::varint::lemma_parse_of_encoding(s, mid, cs.len() as nat);
        let p = mid + count.len() as int;
        assert(s.subrange(p, p + body.len() as int) =~= body) by {
            assert forall|i: int| 0 <= i < body.len() implies s[p + i] == body[i] by {
                assert(s[p + i] == sub[ebytes.len() + count.len() + i]);
            }
        }
        assert(cs.len() <= s.len() - p) by {
            lemma_chunks_wire_len(cs);
        }
        lemma_parse_chunks_n_of_encoding(s, p, cs);
        let next = p + body.len() as int;
        assert(s.subrange(next, s.len() as int) =~= rest) by {
            assert forall|i: int| 0 <= i < rest.len() implies s[next + i] == rest[i] by {
                assert(s[next + i] == sub[ebytes.len() + count.len() + body.len() + i]);
            }
        }
        assert(entries_bounded(entries.drop_first())) by {
            assert forall|k: int| 0 <= k < entries.drop_first().len() implies {
                &&& chunks_bounded((#[trigger] entries.drop_first()[k]).1)
                &&& chunks_wire_bytes(entries.drop_first()[k].1).len() <= u64::MAX
            } by {
                assert(entries.drop_first()[k] == entries[k + 1]);
            }
        }
        lemma_parse_changes_to_end_of_encoding(s, next, entries.drop_first());
        assert(spec_changes_to_end(s, pos) == Some(seq![entries[0]] + entries.drop_first()));
        assert(seq![entries[0]] + entries.drop_first() =~= entries);
    }
}

/// The serialize-parse round trip of an insertion-only change message, the
/// shape that spawns an entity with its full component snapshot: its
/// entity ranges selecting entity encodings and its component ranges
/// selecting chunk encodings, finalized against a tick range holding a
/// tick's encoding, it parses back to exactly that tick and those values.
pub proof fn lemma_change_message_round_trip(
    m: crate::change_message::ChangeMessage,
    data: Seq<u8>,
    t: crate::buffer::ByteRange,
    tick: crate::tick::RepliconTick,
    values: Seq<(Entity, Seq<(u64, Seq<u8>)>)>,
)
    requires
        t.select(data) == crate::codec::tick_bytes(tick),
        entries_bounded(values),
        m.spec_mappings().0.spec_len() == 0,
        m.spec_despawns().len() == 0,
        m.spec_removals().len() == 0,
        m.spec_changes().len() == values.len(),
        m.spec_changes().len() > 0,
        forall|k: int| 0 <= k < m.spec_changes().len() ==> {
            &&& (#[trigger] m.spec_changes()[k]).0.select(data)
                == crate::entity::entity_bytes(values[k].0)
            &&& m.spec_changes()[k].1.len() == values[k].1.len()
            &&& forall|j: int| 0 <= j < m.spec_changes()[k].1.len()
                ==> (#[trigger] m.spec_changes()[k].1[j]).select(data)
                    == crate::collect::chunk_bytes(values[k].1[j].0, values[k].1[j].1)
        },
    ensures
        spec_change_message(m.spec_bytes(data, t))
            == Some((
            tick.spec_value(),
            Seq::<(Entity, Entity)>::empty(),
            Seq::<Entity>::empty(),
            Seq::<(Entity, Seq<u64>)>::empty(),
            values,
        )),
{
    let f = m.spec_flags();
    assert(f.spec_bits() == 8);
    let tbytes = crate::codec::tick_bytes(tick);
    assert(crate::change_message::changes_bytes(m.spec_changes(), data)
        == changes_wire_bytes(values)) by {
        lemma_changes_as_wire(m.spec_changes(), data, values);
    }
    let body = changes_wire_bytes(values);
    let s = m.spec_bytes(data, t);
    assert(s =~= seq![8u8] + tbytes + body);
    assert(s[0] == 8);
    assert(s.subrange(1, 1 + tbytes.len() as int) =~= tbytes);
    crate::codec::lemma_parse_tick_of_encoding(s, 1, tick);
    let p = 1 + tbytes.len() as int;
    assert(s.subrange(p, s.len() as int) =~= body);
    lemma_parse_changes_to_end_of_encoding(s, p, values);
}

/// A changes list whose entity ranges select entity encodings and whose
/// component ranges select chunk encodings flattens to the values' wire
/// bytes.
pub proof fn lemma_changes_as_wire(
    cs: Seq<(crate::buffer::ByteRange, Seq<crate::buffer::ByteRange>)>,
    data: Seq<u8>,
    values: Seq<(Entity, Seq<(u64, Seq<u8>)>)>,
)
    requires
        cs.len() == values.len(),
        forall|k: int| 0 <= k < cs.len() ==> {
            &&& (#[trigger] cs[k]).0.select(data)
                == crate::entity::entity_bytes(values[k].0)
            &&& cs[k].1.len() == values[k].1.len()
            &&& forall|j: int| 0 <= j < cs[k].1.len()
                ==> (#[trigger] cs[k].1[j]).select(data)
                    == crate::collect::chunk_bytes(values[k].1[j].0, values[k].1[j].1)
        },
    ensures
        crate::change_message::changes_bytes(cs, data) == changes_wire_bytes(values),
    decreases cs.len(),
{
    if cs.len() > 0 {
        lemma_ranges_as_chunks(cs[0].1, data, values[0].1);
        assert forall|k: int| 0 <= k < cs.drop_first().len() implies {
            &&& (#[trigger] cs.drop_first()[k]).0.select(data)
                == crate::entity::entity_bytes(values.drop_first()[k].0)
            &&& cs.drop_first()[k].1.len() == values.drop_first()[k].1.len()
            &&& forall|j: int| 0 <= j < cs.drop_first()[k].1.len()
                ==> (#[trigger] cs.drop_first()[k].1[j]).select(data)
                    == crate::collect::chunk_bytes(
                    values.drop_first()[k].1[j].0, values.drop_first()[k].1[j].1)
        } by {
            assert(cs.drop_first()[k] == cs[k + 1]);
            assert(values.drop_first()[k] == values[k + 1]);
            assert(cs[k + 1].0.select(data)
                == crate::entity::entity_bytes(values[k + 1].0));
            assert forall|j: int| 0 <= j < cs.drop_first()[k].1.len() implies
                (#[trigger] cs.drop_first()[k].1[j]).select(data)
                    == crate::collect::chunk_bytes(
                    values.drop_first()[k].1[j].0, values.drop_first()[k].1[j].1) by {
                assert(cs[k + 1].1[j].select(data)
                    == crate::collect::chunk_bytes(values[k + 1].1[j].0, values[k + 1].1[j].1));
            }
        }
        lemma_changes_as_wire(cs.drop_first(), data, values.drop_first());
        assert(crate::change_message::changes_bytes(cs, data)
            =~= changes_wire_bytes(values));
    } else {
        assert(crate::change_message::changes_bytes(cs, data)
            =~= changes_wire_bytes(values));
    }
}

/// Wire bytes of a list of (server, client) entity pairs, in order.
pub open spec fn pairs_wire_bytes(ps: Seq<(Entity, Entity)>) -> Seq<u8>
    decreases ps.len(),
{
    if ps.len() == 0 {
        Seq::empty()
    } else {
        crate::entity::entity_bytes(ps[0].0) + crate::entity::entity_bytes(ps[0].1)
            + pairs_wire_bytes(ps.drop_first())
    }
}

/// Every pair takes at least two bytes on the wire.
pub proof fn lemma_pairs_wire_len(ps: Seq<(Entity, Entity)>)
    ensures
        pairs_wire_bytes(ps).len() >= 2 * ps.len(),
    decreases ps.len(),
{
    if ps.len() > 0 {
        lemma_pairs_wire_len(ps.drop_first());
    }
}

/// A pair list laid down by the wire grammar parses back to itself under
/// its own count.
pub proof fn lemma_parse_pairs_n_of_encoding(s: Seq<u8>, pos: int, ps: Seq<(Entity, Entity)>)
    requires
        0 <= pos,
        pos + pairs_wire_bytes(ps).len() <= s.len(),
        s.subrange(pos, pos + pairs_wire_bytes(ps).len()) == pairs_wire_bytes(ps),
    ensures
        spec_pairs_n(s, pos, ps.len() as nat) == Some((ps, pos + pairs_wire_bytes(ps).len())),
    decreases ps.len(),
{
    let whole = pairs_wire_bytes(ps);
    if ps.len() == 0 {
        assert(Some((Seq::<(Entity, Entity)>::empty(), pos)) == Some((ps, pos))) by {
            assert(ps =~= Seq::<(Entity, Entity)>::empty());
        }
    } else {
        let sbytes = crate::entity::entity_bytes(ps[0].0);
        let cbytes = crate::entity::entity_bytes(ps[0].1);
        let rest = pairs_wire_bytes(ps.drop_first());
        assert(whole =~= sbytes + cbytes + rest);
        let sub = s.subrange(pos, pos + whole.len() as int);
        assert(s.subrange(pos, pos + sbytes.len() as int) =~= sbytes) by {
            assert forall|i: int| 0 <= i < sbytes.len() implies s[pos + i] == sbytes[i] by {
                assert(s[pos + i] == sub[i]);
            }
        }
        crate::entity::lemma_parse_entity_of_encoding(s, pos, ps[0].0);
        let mid = pos + sbytes.len() as int;
        assert(s.subrange(mid, mid + cbytes.len() as int) =~= cbytes) by {
            assert forall|i: int| 0 <= i < cbytes.len() implies s[mid + i] == cbytes[i] by {
                assert(s[mid + i] == sub[sbytes.len() + i]);
            }
        }
        crate::entity::lemma_parse_entity_of_encoding(s, mid, ps[0].1);
        let end = mid + cbytes.len() as int;
        assert(s.subrange(end, end + rest.len() as int) =~= rest) by {
            assert forall|i: int| 0 <= i < rest.len() implies s[end + i] == rest[i] by {
                assert(s[end + i] == sub[sbytes.len() + cbytes.len() + i]);
            }
        }
        lemma_parse_pairs_n_of_encoding(s, end, ps.drop_first());
        assert(spec_pairs_n(s, pos, ps.len() as nat)
            == Some((seq![ps[0]] + ps.drop_first(), pos + whole.len())));
        assert(seq![ps[0]] + ps.drop_first() =~= ps);
    }
}

/// The serialize-parse round trip of a client-predicted-spawn message:
/// a change message carrying entity mappings ahead of component
/// insertions, with the mappings chunk flattening to the pairs' encodings
/// and its count in front, parses back to exactly that tick, those pairs
/// and those insertions.
#[verifier::rlimit(80)]
pub proof fn lemma_mapped_change_message_round_trip(
    m: crate::change_message::ChangeMessage,
    data: Seq<u8>,
    t: crate::buffer::ByteRange,
    tick: crate::tick::RepliconTick,
    pairs: Seq<(Entity, Entity)>,
    values: Seq<(Entity, Seq<(u64, Seq<u8>)>)>,
)
    requires
        t.select(data) == crate::codec::tick_bytes(tick),
        entries_bounded(values),
        m.spec_mappings().0.spec_len() > 0,
        m.spec_mappings().0.select(data) == pairs_wire_bytes(pairs),
        m.spec_mappings().1 == pairs.len(),
        pairs.len() > 0,
        m.spec_despawns().len() == 0,
        m.spec_removals().len() == 0,
        m.spec_changes().len() == values.len(),
        m.spec_changes().len() > 0,
        forall|k: int| 0 <= k < m.spec_changes().len() ==> {
            &&& (#[trigger] m.spec_changes()[k]).0.select(data)
                == crate::entity::entity_bytes(values[k].0)
            &&& m.spec_changes()[k].1.len() == values[k].1.len()
            &&& forall|j: int| 0 <= j < m.spec_changes()[k].1.len()
                ==> (#[trigger] m.spec_changes()[k].1[j]).select(data)
                    == crate::collect::chunk_bytes(values[k].1[j].0, values[k].1[j].1)
        },
    ensures
        spec_change_message(m.spec_bytes(data, t))
            == Some((
            tick.spec_value(),
            pairs,
            Seq::<Entity>::empty(),
            Seq::<(Entity, Seq<u64>)>::empty(),
            values,
        )),
{
    let f = m.spec_flags();
    assert(f.spec_bits() == 9);
    let tbytes = crate::codec::tick_bytes(tick);
    let count = crate::varint::varint_bytes(pairs.len() as nat);
    let mbody = pairs_wire_bytes(pairs);
    assert(crate::change_message::changes_bytes(m.spec_changes(), data)
        == changes_wire_bytes(values)) by {
        lemma_changes_as_wire(m.spec_changes(), data, values);
    }
    let cbody = changes_wire_bytes(values);
    let s = m.spec_bytes(data, t);
    assert(s =~= seq![9u8] + tbytes + count + mbody + cbody);
    assert(s[0] == 9);
    assert(s.subrange(1, 1 + tbytes.len() as int) =~= tbytes);
    crate::codec::lemma_parse_tick_of_encoding(s, 1, tick);
    let p0 = 1 + tbytes.len() as int;
    assert(s.subrange(p0, p0 + count.len() as int) =~= count) by {
        assert forall|i: int| 0 <= i < count.len() implies s[p0 + i] == count[i] by {
            assert(s[p0 + i] == (seq![9u8] + tbytes + count + mbody + cbody)[p0 + i]);
        }
    }
    crate::varint::lemma_parse_of_encoding(s, p0, pairs.len() as nat);
    let p1 = p0 + count.len() as int;
    assert(s.subrange(p1, p1 + mbody.len() as int) =~= mbody) by {
        assert forall|i: int| 0 <= i < mbody.len() implies s[p1 + i] == mbody[i] by {
            assert(s[p1 + i] == (seq![9u8] + tbytes + count + mbody + cbody)[p1 + i]);
        }
    }
    assert(2 * pairs.len() <= s.len() - p1) by {
        lemma_pairs_wire_len(pairs);
    }
    lemma_parse_pairs_n_of_encoding(s, p1, pairs);
    let p2 = p1 + mbody.len() as int;
    assert(s.subrange(p2, s.len() as int) =~= cbody) by {
        assert forall|i: int| 0 <= i < cbody.len() implies s[p2 + i] == cbody[i] by {
            assert(s[p2 + i] == (seq![9u8] + tbytes + count + mbody + cbody)[p2 + i]);
        }
    }
    lemma_parse_changes_to_end_of_encoding(s, p2, values);
}

/// Spec-level shape of a parsed removals list.
pub open spec fn removals_view(v: Seq<(Entity, Vec<u64>)>) -> Seq<(Entity, Seq<u64>)> {
    v.map_values(|p: (Entity, Vec<u64>)| (p.0, p.1@))
}

/// Spec-level shape of a parsed changes list.
pub open spec fn changes_view(v: Seq<(Entity, Vec<(u64, Vec<u8>)>)>) -> Seq<(Entity, Seq<(u64, Seq<u8>)>)> {
    v.map_values(
        |p: (Entity, Vec<(u64, Vec<u8>)>)| (p.0, crate::client_world::components_view(p.1@)),
    )
}

/// A change message as received, ready to apply.
pub struct ChangeMessageData {
    pub tick: crate::tick::RepliconTick,
    pub mappings: Vec<(Entity, Entity)>,
    pub despawns: Vec<Entity>,
    pub removals: Vec<(Entity, Vec<u64>)>,
    pub changes: Vec<(Entity, Vec<(u64, Vec<u8>)>)>,
}

impl ChangeMessageData {
    pub open spec fn view_of(self) -> ChangeView {
        (
            self.tick.spec_value(),
            self.mappings@,
            self.despawns@,
            removals_view(self.removals@),
            changes_view(self.changes@),
        )
    }
}

/// A mutate message as received, ready to buffer or apply.
pub struct MutateMessageData {
    pub tick: crate::tick::RepliconTick,
    pub index: u16,
    pub entities: Vec<(Entity, Vec<(u64, Vec<u8>)>)>,
}

impl MutateMessageData {
    pub open spec fn view_of(self) -> MutateView {
        (self.tick.spec_value(), self.index, changes_view(self.entities@))
    }
}

fn read_entities_n(bytes: &[u8], pos: usize, n: u64) -> (r: Option<(Vec<Entity>, usize)>)
    requires
        pos <= bytes@.len(),
    ensures
        match r {
            Some(p) => spec_entities_n(bytes@, pos as int, n as nat) == Some((p.0@, p.1 as int))
                && pos <= p.1 <= bytes@.len(),
            None => spec_entities_n(bytes@, pos as int, n as nat) is None,
        },
    decreases n,
{
    if n == 0 {
        let v: Vec<Entity> = Vec::new();
        proof {
            assert(v@ =~= Seq::<Entity>::empty());
        }
        return Some((v, pos));
    }
    let (e, end) = read_entity(bytes, pos)?;
    let (mut rest, fin) = read_entities_n(bytes, end, n - 1)?;
    let ghost pre = rest@;
    rest.insert(0, e);
    proof {
        assert(rest@ =~= seq![e] + pre);
    }
    Some((rest, fin))
}

fn read_pairs_n(bytes: &[u8], pos: usize, n: u64) -> (r: Option<(Vec<(Entity, Entity)>, usize)>)
    requires
        pos <= bytes@.len(),
    ensures
        match r {
            Some(p) => spec_pairs_n(bytes@, pos as int, n as nat) == Some((p.0@, p.1 as int))
                && pos <= p.1 <= bytes@.len(),
            None => spec_pairs_n(bytes@, pos as int, n as nat) is None,
        },
    decreases n,
{
    if n == 0 {
        let v: Vec<(Entity, Entity)> = Vec::new();
        proof {
            assert(v@ =~= Seq::<(Entity, Entity)>::empty());
        }
        return Some((v, pos));
    }
    let (server, mid) = read_entity(bytes, pos)?;
    let (client, end) = read_entity(bytes, mid)?;
    let (mut rest, fin) = read_pairs_n(bytes, end, n - 1)?;
    let ghost pre = rest@;
    rest.insert(0, (server, client));
    proof {
        assert(rest@ =~= seq![(server, client)] + pre);
    }
    Some((rest, fin))
}

fn read_fn_ids_n(bytes: &[u8], pos: usize, n: u64) -> (r: Option<(Vec<u64>, usize)>)
    requires
        pos <= bytes@.len(),
    ensures
        match r {
            Some(p) => spec_fn_ids_n(bytes@, pos as int, n as nat) == Some((p.0@, p.1 as int))
                && pos <= p.1 <= bytes@.len(),
            None => spec_fn_ids_n(bytes@, pos as int, n as nat) is None,
        },
    decreases n,
{
    if n == 0 {
        let v: Vec<u64> = Vec::new();
        proof {
            assert(v@ =~= Seq::<u64>::empty());
        }
        return Some((v, pos));
    }
    let (v, end) = read_varint(bytes, pos)?;
    let (mut rest, fin) = read_fn_ids_n(bytes, end, n - 1)?;
    let ghost pre = rest@;
    rest.insert(0, v);
    proof {
        assert(rest@ =~= seq![v] + pre);
    }
    Some((rest, fin))
}

fn read_removal_entry(bytes: &[u8], pos: usize) -> (r: Option<((Entity, Vec<u64>), usize)>)
    requires
        pos <= bytes@.len(),
    ensures
        match r {
            Some(p) => spec_removal_entry(bytes@, pos as int)
                == Some(((p.0.0, p.0.1@), p.1 as int)) && pos < p.1 <= bytes@.len(),
            None => spec_removal_entry(bytes@, pos as int) is None,
        },
{
    let blen = bytes.len();
    let (e, mid) = read_entity(bytes, pos)?;
    let (n, p) = read_varint(bytes, mid)?;
    if n > (blen - p) as u64 {
        return None;
    }
    let (ids, end) = read_fn_ids_n(bytes, p, n)?;
    proof {
        if end <= pos {
            assert(spec_fn_ids_n(bytes@, p as int, n as nat).unwrap().1 >= p);
        }
    }
    Some(((e, ids), end))
}

fn read_removals_n(bytes: &[u8], pos: usize, n: u64) -> (r: Option<(Vec<(Entity, Vec<u64>)>, usize)>)
    requires
        pos <= bytes@.len(),
    ensures
        match r {
            Some(p) => spec_removals_n(bytes@, pos as int, n as nat)
                == Some((removals_view(p.0@), p.1 as int)) && pos <= p.1 <= bytes@.len(),
            None => spec_removals_n(bytes@, pos as int, n as nat) is None,
        },
    decreases n,
{
    if n == 0 {
        let v: Vec<(Entity, Vec<u64>)> = Vec::new();
        proof {
            assert(removals_view(v@) =~= Seq::<(Entity, Seq<u64>)>::empty());
        }
        return Some((v, pos));
    }
    let (entry, end) = read_removal_entry(bytes, pos)?;
    let (mut rest, fin) = read_removals_n(bytes, end, n - 1)?;
    let ghost pre = rest@;
    rest.insert(0, entry);
    proof {
        assert(removals_view(rest@) =~~= seq![(entry.0, entry.1@)] + removals_view(pre));
    }
    Some((rest, fin))
}

fn read_removals_to_end(bytes: &[u8], pos: usize) -> (r: Option<Vec<(Entity, Vec<u64>)>>)
    requires
        pos <= bytes@.len(),
    ensures
        match r {
            Some(v) => spec_removals_to_end(bytes@, pos as int) == Some(removals_view(v@)),
            None => spec_removals_to_end(bytes@, pos as int) is None,
        },
    decreases bytes@.len() - pos,
{
    if pos == bytes.len() {
        let v: Vec<(Entity, Vec<u64>)> = Vec::new();
        proof {
            assert(removals_view(v@) =~= Seq::<(Entity, Seq<u64>)>::empty());
        }
        return Some(v);
    }
    let (entry, end) = read_removal_entry(bytes, pos)?;
    let mut rest = read_removals_to_end(bytes, end)?;
    let ghost pre = rest@;
    rest.insert(0, entry);
    proof {
        assert(removals_view(rest@) =~~= seq![(entry.0, entry.1@)] + removals_view(pre));
    }
    Some(rest)
}

fn read_entities_to_end(bytes: &[u8], pos: usize) -> (r: Option<Vec<Entity>>)
    requires
        pos <= bytes@.len(),
    ensures
        match r {
            Some(v) => spec_entities_to_end(bytes@, pos as int) == Some(v@),
            None => spec_entities_to_end(bytes@, pos as int) is None,
        },
    decreases bytes@.len() - pos,
{
    if pos == bytes.len() {
        let v: Vec<Entity> = Vec::new();
        proof {
            assert(v@ =~= Seq::<Entity>::empty());
        }
        return Some(v);
    }
    let (e, end) = read_entity(bytes, pos)?;
    let mut rest = read_entities_to_end(bytes, end)?;
    let ghost pre = rest@;
    rest.insert(0, e);
    proof {
        assert(rest@ =~= seq![e] + pre);
    }
    Some(rest)
}

fn read_chunk(bytes: &[u8], pos: usize) -> (r: Option<((u64, Vec<u8>), usize)>)
    requires
        pos <= bytes@.len(),
    ensures
        match r {
            Some(p) => spec_chunk(bytes@, pos as int) == Some(((p.0.0, p.0.1@), p.1 as int))
                && pos < p.1 <= bytes@.len(),
            None => spec_chunk(bytes@, pos as int) is None,
        },
{
    let blen = bytes.len();
    let (id, mid) = read_varint(bytes, pos)?;
    let (len, p) = read_varint(bytes, mid)?;
    if len > (blen - p) as u64 {
        return None;
    }
    let len = len as usize;
    let mut payload: Vec<u8> = Vec::new();
    let mut i: usize = 0;
    while i < len
        invariant
            i <= len,
            blen == bytes@.len(),
            p + len <= blen,
            payload@ == bytes@.subrange(p as int, p + i),
        decreases len - i,
    {
        payload.push(bytes[p + i]);
        i = i + 1;
        proof {
            assert(payload@ =~= bytes@.subrange(p as int, p + i));
        }
    }
    proof {
        assert(payload@ =~= bytes@.subrange(p as int, p + len));
    }
    Some(((id, payload), p + len))
}

fn read_chunks_n(bytes: &[u8], pos: usize, n: u64) -> (r: Option<(Vec<(u64, Vec<u8>)>, usize)>)
    requires
        pos <= bytes@.len(),
    ensures
        match r {
            Some(p) => spec_chunks_n(bytes@, pos as int, n as nat)
                == Some((crate::client_world::components_view(p.0@), p.1 as int))
                && pos <= p.1 <= bytes@.len(),
            None => spec_chunks_n(bytes@, pos as int, n as nat) is None,
        },
    decreases n,
{
    if n == 0 {
        let v: Vec<(u64, Vec<u8>)> = Vec::new();
        proof {
            assert(crate::client_world::components_view(v@) =~= Seq::<(u64, Seq<u8>)>::empty());
        }
        return Some((v, pos));
    }
    let (c, end) = read_chunk(bytes, pos)?;
    let (mut rest, fin) = read_chunks_n(bytes, end, n - 1)?;
    let ghost pre = rest@;
    rest.insert(0, c);
    proof {
        assert(crate::client_world::components_view(rest@)
            =~~= seq![(c.0, c.1@)] + crate::client_world::components_view(pre));
    }
    Some((rest, fin))
}

fn read_chunks_until(bytes: &[u8], pos: usize, limit: usize) -> (r: Option<Vec<(u64, Vec<u8>)>>)
    requires
        pos <= bytes@.len(),
        limit <= bytes@.len(),
    ensures
        match r {
            Some(v) => spec_chunks_until(bytes@, pos as int, limit as int)
                == Some(crate::client_world::components_view(v@)),
            None => spec_chunks_until(bytes@, pos as int, limit as int) is None,
        },
    decreases limit - pos,
{
    if pos == limit {
        let v: Vec<(u64, Vec<u8>)> = Vec::new();
        proof {
            assert(crate::client_world::components_view(v@) =~= Seq::<(u64, Seq<u8>)>::empty());
        }
        return Some(v);
    }
    if pos > limit {
        return None;
    }
    let (c, end) = read_chunk(bytes, pos)?;
    if end > limit {
        return None;
    }
    let mut rest = read_chunks_until(bytes, end, limit)?;
    let ghost pre = rest@;
    rest.insert(0, c);
    proof {
        assert(crate::client_world::components_view(rest@)
            =~~= seq![(c.0, c.1@)] + crate::client_world::components_view(pre));
    }
    Some(rest)
}

fn read_change_entry(bytes: &[u8], pos: usize) -> (r: Option<((Entity, Vec<(u64, Vec<u8>)>), usize)>)
    requires
        pos <= bytes@.len(),
    ensures
        match r {
            Some(p) => spec_change_entry(bytes@, pos as int) == Some(
                ((p.0.0, crate::client_world::components_view(p.0.1@)), p.1 as int),
            ) && pos < p.1 <= bytes@.len(),
            None => spec_change_entry(bytes@, pos as int) is None,
        },
{
    let blen = bytes.len();
    let (e, mid) = read_entity(bytes, pos)?;
    let (n, p) = read_varint(bytes, mid)?;
    if n > (blen - p) as u64 {
        return None;
    }
    let (cs, end) = read_chunks_n(bytes, p, n)?;
    proof {
        if end <= pos {
            assert(spec_chunks_n(bytes@, p as int, n as nat).unwrap().1 >= p);
        }
    }
    Some(((e, cs), end))
}

fn read_changes_to_end(bytes: &[u8], pos: usize) -> (r: Option<Vec<(Entity, Vec<(u64, Vec<u8>)>)>>)
    requires
        pos <= bytes@.len(),
    ensures
        match r {
            Some(v) => spec_changes_to_end(bytes@, pos as int) == Some(changes_view(v@)),
            None => spec_changes_to_end(bytes@, pos as int) is None,
        },
    decreases bytes@.len() - pos,
{
    if pos == bytes.len() {
        let v: Vec<(Entity, Vec<(u64, Vec<u8>)>)> = Vec::new();
        proof {
            assert(changes_view(v@) =~= Seq::<(Entity, Seq<(u64, Seq<u8>)>)>::empty());
        }
        return Some(v);
    }
    let (entry, end) = read_change_entry(bytes, pos)?;
    let mut rest = read_changes_to_end(bytes, end)?;
    let ghost pre = rest@;
    rest.insert(0, entry);
    proof {
        assert(changes_view(rest@)
            =~~= seq![(entry.0, crate::client_world::components_view(entry.1@))]
                + changes_view(pre));
    }
    Some(rest)
}

/// Parses a received change message; `None` exactly when the bytes are
/// malformed, in which case the message is dropped and logged, never
/// fatal.
pub fn read_change_message(bytes: &[u8]) -> (r: Option<ChangeMessageData>)
    ensures
        match r {
            Some(d) => spec_change_message(bytes@) == Some(d.view_of()),
            None => spec_change_message(bytes@) is None,
        },
{
    let blen = bytes.len();
    if blen == 0 {
        return None;
    }
    let flags = bytes[0];
    if flags > 15 {
        return None;
    }
    let has_mappings = flags % 2 == 1;
    let has_despawns = (flags / 2) % 2 == 1;
    let has_removals = (flags / 4) % 2 == 1;
    let has_changes = (flags / 8) % 2 == 1;
    let (tick, p0) = read_tick(bytes, 1)?;
    let (mappings, p1) = if has_mappings {
        let (n, p) = read_varint(bytes, p0)?;
        if n > ((blen - p) / 2) as u64 {
            proof {
                assert(2 * (n as nat) > bytes@.len() - p) by (nonlinear_arith)
                    requires
                        n > (bytes@.len() - p) / 2,
                        p <= bytes@.len(),
                ;
            }
            return None;
        }
        proof {
            assert(2 * (n as nat) <= bytes@.len() - p) by (nonlinear_arith)
                requires
                    n <= (bytes@.len() - p) / 2,
                    p <= bytes@.len(),
            ;
        }
        read_pairs_n(bytes, p, n)?
    } else {
        let v: Vec<(Entity, Entity)> = Vec::new();
        proof {
            assert(v@ =~= Seq::<(Entity, Entity)>::empty());
        }
        (v, p0)
    };
    if has_despawns && !has_removals && !has_changes {
        let despawns = read_entities_to_end(bytes, p1)?;
        let d = ChangeMessageData {
            tick: crate::tick::RepliconTick::new(tick),
            mappings,
            despawns,
            removals: Vec::new(),
            changes: Vec::new(),
        };
        proof {
            assert(removals_view(d.removals@) =~= Seq::<(Entity, Seq<u64>)>::empty());
            assert(changes_view(d.changes@) =~= Seq::<(Entity, Seq<(u64, Seq<u8>)>)>::empty());
        }
        return Some(d);
    }
    let (despawns, p2) = if has_despawns {
        let (n, p) = read_varint(bytes, p1)?;
        if n > (blen - p) as u64 {
            return None;
        }
        read_entities_n(bytes, p, n)?
    } else {
        let v: Vec<Entity> = Vec::new();
        proof {
            assert(v@ =~= Seq::<Entity>::empty());
        }
        (v, p1)
    };
    if has_removals && !has_changes {
        let removals = read_removals_to_end(bytes, p2)?;
        let d = ChangeMessageData {
            tick: crate::tick::RepliconTick::new(tick),
            mappings,
            despawns,
            removals,
            changes: Vec::new(),
        };
        proof {
            assert(changes_view(d.changes@) =~= Seq::<(Entity, Seq<(u64, Seq<u8>)>)>::empty());
        }
        return Some(d);
    }
    let (removals, p3) = if has_removals {
        let (n, p) = read_varint(bytes, p2)?;
        if n > (blen - p) as u64 {
            return None;
        }
        read_removals_n(bytes, p, n)?
    } else {
        let v: Vec<(Entity, Vec<u64>)> = Vec::new();
        proof {
            assert(removals_view(v@) =~= Seq::<(Entity, Seq<u64>)>::empty());
        }
        (v, p2)
    };
    if has_changes {
        let changes = read_changes_to_end(bytes, p3)?;
        Some(ChangeMessageData {
            tick: crate::tick::RepliconTick::new(tick),
            mappings,
            despawns,
            removals,
            changes,
        })
    } else if p3 == bytes.len() {
        let d = ChangeMessageData {
            tick: crate::tick::RepliconTick::new(tick),
            mappings,
            despawns,
            removals,
            changes: Vec::new(),
        };
        proof {
            assert(changes_view(d.changes@) =~= Seq::<(Entity, Seq<(u64, Seq<u8>)>)>::empty());
        }
        Some(d)
    } else {
        None
    }
}

fn read_mutate_entries(bytes: &[u8], pos: usize) -> (r: Option<Vec<(Entity, Vec<(u64, Vec<u8>)>)>>)
    requires
        pos <= bytes@.len(),
    ensures
        match r {
            Some(v) => spec_mutate_entries(bytes@, pos as int) == Some(changes_view(v@)),
            None => spec_mutate_entries(bytes@, pos as int) is None,
        },
    decreases bytes@.len() - pos,
{
    if pos == bytes.len() {
        let v: Vec<(Entity, Vec<(u64, Vec<u8>)>)> = Vec::new();
        proof {
            assert(changes_view(v@) =~= Seq::<(Entity, Seq<(u64, Seq<u8>)>)>::empty());
        }
        return Some(v);
    }
    let blen = bytes.len();
    let (e, mid) = read_entity(bytes, pos)?;
    let (size, p) = read_varint(bytes, mid)?;
    if size > (blen - p) as u64 {
        return None;
    }
    let size = size as usize;
    let cs = read_chunks_until(bytes, p, p + size)?;
    let mut rest = read_mutate_entries(bytes, p + size)?;
    let ghost pre = rest@;
    rest.insert(0, (e, cs));
    proof {
        assert(changes_view(rest@)
            =~~= seq![(e, crate::client_world::components_view(cs@))] + changes_view(pre));
    }
    Some(rest)
}

/// Parses a received mutate message; `None` exactly when the bytes are
/// malformed, in which case the message is dropped and logged, never
/// fatal.
pub fn read_mutate_message(bytes: &[u8]) -> (r: Option<MutateMessageData>)
    ensures
        match r {
            Some(d) => spec_mutate_message(bytes@) == Some(d.view_of()),
            None => spec_mutate_message(bytes@) is None,
        },
{
    let blen = bytes.len();
    let (tick, p0) = read_tick(bytes, 0)?;
    let (index, p1) = read_varint(bytes, p0)?;
    if index > u16::MAX as u64 {
        return None;
    }
    let entities = read_mutate_entries(bytes, p1)?;
    Some(MutateMessageData {
        tick: crate::tick::RepliconTick::new(tick),
        index: index as u16,
        entities,
    })
}

} // verus!
