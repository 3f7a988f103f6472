//! Entity identity and its wire encoding.

use vstd::prelude::*;
use crate::varint::{varint_bytes, parse_varint, write_varint, read_varint, lemma_parse_of_encoding};

verus! {

/// Identity of an entity inside one store: an index with a generation that
/// distinguishes reuses of the same index.
///
/// Server and client identities are independent; only the bidirectional
/// entity map translates between them.
#[derive(Clone, Copy, Debug, Hash, PartialEq, Eq, Structural)]
pub struct Entity {
    pub index: u32,
    pub generation: u32,
}

impl Entity {
    pub fn new(index: u32, generation: u32) -> (r: Entity)
        ensures
            r == (Entity { index, generation }),
    {
        Entity { index, generation }
    }

    pub fn index(self) -> (r: u32)
        ensures
            r == self.index,
    {
        self.index
    }

    pub fn generation(self) -> (r: u32)
        ensures
            r == self.generation,
    {
        self.generation
    }
}

/// The index doubled, with the low bit saying whether a generation varint
/// follows.
pub open spec fn flagged_index(e: Entity) -> nat {
    2 * (e.index as nat) + if e.generation != 0 { 1nat } else { 0nat }
}

/// Wire encoding of an entity: a flagged varint index, then the generation
/// as a varint, left out entirely when the generation is zero.
pub open spec fn entity_bytes(e: Entity) -> Seq<u8> {
    if e.generation == 0 {
        varint_bytes(flagged_index(e))
    } else {
        varint_bytes(flagged_index(e)) + varint_bytes(e.generation as nat)
    }
}

/// Result of parsing an entity inside `s` at `pos`: the entity and the
/// position just past its encoding. Indexes or generations beyond `u32`
/// do not name an entity and fail the parse.
pub open spec fn parse_entity(s: Seq<u8>, pos: int) -> Option<(Entity, int)> {
    match parse_varint(s, pos) {
        None => None,
        Some((flagged, mid)) => {
            if flagged / 2 > u32::MAX {
                None
            } else if flagged % 2 == 0 {
                Some((Entity { index: (flagged / 2) as u32, generation: 0 }, mid))
            } else {
                match parse_varint(s, mid) {
                    None => None,
                    Some((g, end)) => {
                        if g > u32::MAX {
                            None
                        } else {
                            Some((Entity { index: (flagged / 2) as u32, generation: g as u32 }, end))
                        }
                    },
                }
            }
        },
    }
}

/// Appends the encoding of `e` to `buf`.
pub fn write_entity(buf: &mut Vec<u8>, e: Entity)
    ensures
        final(buf)@ == old(buf)@ + entity_bytes(e),
{
    let flag: u64 = if e.generation != 0 { 1 } else { 0 };
    let flagged: u64 = (e.index as u64) * 2 + flag;
    assert(flagged as nat == flagged_index(e));
    write_varint(buf, flagged);
    if e.generation != 0 {
        write_varint(buf, e.generation as u64);
        assert(buf@ =~= old(buf)@ + entity_bytes(e));
    }
}

/// Number of bytes the encoding of `e` takes.
pub fn entity_size(e: Entity) -> (r: usize)
    ensures
        r == entity_bytes(e).len(),
{
    let flag: u64 = if e.generation != 0 { 1 } else { 0 };
    let flagged: u64 = (e.index as u64) * 2 + flag;
    assert(flagged as nat == flagged_index(e));
    let head = crate::varint::required_space(flagged);
    if e.generation != 0 {
        let tail = crate::varint::required_space(e.generation as u64);
        head + tail
    } else {
        head
    }
}

/// Reads one entity out of `bytes` at `pos`; `None` exactly when no entity
/// encoding sits there.
pub fn read_entity(bytes: &[u8], pos: usize) -> (r: Option<(Entity, usize)>)
    requires
        pos <= bytes@.len(),
    ensures
        match r {
            Some(p) => {
                &&& parse_entity(bytes@, pos as int) == Some((p.0, p.1 as int))
                &&& pos < p.1 <= bytes@.len()
            },
            None => parse_entity(bytes@, pos as int) is None,
        },
{
    match read_varint(bytes, pos) {
        None => {
            proof {
                if parse_varint(bytes@, pos as int) is Some {
                    let p = parse_varint(bytes@, pos as int).unwrap();
                    assert(p.0 > u64::MAX);
                    assert(p.0 / 2 > u32::MAX);
                }
            }
            None
        },
        Some((flagged, mid)) => {
            let index = flagged / 2;
            if index > u32::MAX as u64 {
                None
            } else if flagged % 2 == 0 {
                Some((Entity { index: index as u32, generation: 0 }, mid))
            } else {
                match read_varint(bytes, mid) {
                    None => {
                        proof {
                            if parse_varint(bytes@, mid as int) is Some {
                                let p = parse_varint(bytes@, mid as int).unwrap();
                                assert(p.0 > u64::MAX);
                            }
                        }
                        None
                    },
                    Some((g, end)) => {
                        if g > u32::MAX as u64 {
                            None
                        } else {
                            Some((Entity { index: index as u32, generation: g as u32 }, end))
                        }
                    },
                }
            }
        },
    }
}

/// Every entity encoding decodes back to the entity it came from, wherever
/// it sits in a larger message.
pub proof fn lemma_parse_entity_of_encoding(s: Seq<u8>, pos: int, e: Entity)
    requires
        0 <= pos,
        pos + entity_bytes(e).len() <= s.len(),
        s.subrange(pos, pos + entity_bytes(e).len()) == entity_bytes(e),
    ensures
        parse_entity(s, pos) == Some((e, pos + entity_bytes(e).len())),
{
    let f = flagged_index(e);
    let head = varint_bytes(f);
    let b: nat = if e.generation != 0 { 1nat } else { 0nat };
    assert((2 * (e.index as nat) + b) / 2 == e.index
        && (2 * (e.index as nat) + b) % 2 == b) by (nonlinear_arith)
        requires
            b < 2,
    ;
    assert(f / 2 == e.index && f % 2 == b);
    if e.generation == 0 {
        assert(s.subrange(pos, pos + head.len()) =~= entity_bytes(e));
        lemma_parse_of_encoding(s, pos, f);
    } else {
        let tail = varint_bytes(e.generation as nat);
        let enc = entity_bytes(e);
        assert(enc =~= head + tail);
        assert(s.subrange(pos, pos + head.len() as int) =~= head) by {
            assert forall|i: int| 0 <= i < head.len() implies
                s.subrange(pos, pos + enc.len() as int)[i] == head[i] by {}
            assert forall|i: int| 0 <= i < head.len() implies s[pos + i] == head[i] by {
                assert(s[pos + i] == s.subrange(pos, pos + enc.len() as int)[i]);
            }
        }
        lemma_parse_of_encoding(s, pos, f);
        let mid = pos + head.len() as int;
        assert(s.subrange(mid, mid + tail.len() as int) =~= tail) by {
            assert forall|i: int| 0 <= i < tail.len() implies s[mid + i] == tail[i] by {
                assert(s[mid + i] == s.subrange(pos, pos + enc.len() as int)[head.len() + i]);
            }
        }
        lemma_parse_of_encoding(s, mid, e.generation as nat);
    }
}

} // verus!
