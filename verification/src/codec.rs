//! Wire encoding of replication ticks.
//!
//! Ticks go over the wire in bincode's default variable-length integer
//! format, at most [`RepliconTick::MAX_SERIALIZED_SIZE`] bytes for a 32-bit
//! counter. Encoding goes through bincode itself; decoding is implemented
//! here and proved to invert the encoding.

use vstd::prelude::*;
use crate::tick::RepliconTick;

verus! {

/// Bincode's default variable-length encoding of a `u32`: values below 251
/// are one bare byte; values up to `u16::MAX` are the marker byte 251
/// followed by two little-endian bytes; larger values are the marker byte
/// 252 followed by four little-endian bytes.
pub open spec fn tick_value_bytes(v: u32) -> Seq<u8> {
    if v < 251 {
        seq![v as u8]
    } else if v <= 0xFFFF {
        seq![251u8, (v % 256) as u8, (v / 256) as u8]
    } else {
        seq![
            252u8,
            (v % 256) as u8,
            ((v / 256) % 256) as u8,
            ((v / 0x10000) % 256) as u8,
            (v / 0x1000000) as u8,
        ]
    }
}

/// Wire encoding of a tick.
pub open spec fn tick_bytes(t: RepliconTick) -> Seq<u8> {
    tick_value_bytes(t.spec_value())
}

/// Relies on bincode's `DefaultOptions` serialization of a `u32`, which its
/// configuration documentation specifies as the variable-length encoding
/// stated by [`tick_value_bytes`]. Serialization into a plain vector cannot
/// fail for an integer.
#[verifier::external_body]
fn bincode_u32_bytes(value: u32) -> (r: Vec<u8>)
    ensures
        r@ == tick_value_bytes(value),
{
    bincode::Options::serialize(bincode::options(), &value)
        .expect("integer serialization into a vector is infallible")
}

/// Encodes `t` for the wire.
pub fn write_tick(buf: &mut Vec<u8>, t: RepliconTick)
    ensures
        final(buf)@ == old(buf)@ + tick_bytes(t),
{
    let bytes = bincode_u32_bytes(t.get());
    let mut i: usize = 0;
    while i < bytes.len()
        invariant
            i <= bytes@.len(),
            buf@ == old(buf)@ + bytes@.subrange(0, i as int),
        decreases bytes@.len() - i,
    {
        buf.push(bytes[i]);
        i = i + 1;
        assert(buf@ =~= old(buf)@ + bytes@.subrange(0, i as int));
    }
    assert(bytes@.subrange(0, bytes@.len() as int) =~= bytes@);
}

/// Number of bytes the encoding of `t` takes.
pub fn tick_size(t: RepliconTick) -> (r: usize)
    ensures
        r == tick_bytes(t).len(),
        1 <= r <= RepliconTick::MAX_SERIALIZED_SIZE,
{
    let v = t.get();
    if v < 251 {
        1
    } else if v <= 0xFFFF {
        3
    } else {
        5
    }
}

/// Result of parsing a tick inside `s` at `pos`: the tick and the position
/// just past its encoding.
pub open spec fn parse_tick(s: Seq<u8>, pos: int) -> Option<(u32, int)> {
    if pos < 0 || pos >= s.len() {
        None
    } else if s[pos] < 251 {
        Some((s[pos] as u32, pos + 1))
    } else if s[pos] == 251 {
        if pos + 3 <= s.len() {
            Some(((s[pos + 1] + 256 * s[pos + 2]) as u32, pos + 3))
        } else {
            None
        }
    } else if s[pos] == 252 {
        if pos + 5 <= s.len() {
            Some((
                (s[pos + 1] + 256 * s[pos + 2] + 0x10000 * s[pos + 3]
                    + 0x1000000 * s[pos + 4]) as u32,
                pos + 5,
            ))
        } else {
            None
        }
    } else {
        None
    }
}

/// Reads one tick value out of `bytes` at `pos`; `None` exactly when no
/// tick encoding sits there.
pub fn read_tick(bytes: &[u8], pos: usize) -> (r: Option<(u32, usize)>)
    requires
        pos <= bytes@.len(),
    ensures
        match r {
            Some(p) => {
                &&& parse_tick(bytes@, pos as int) == Some((p.0, p.1 as int))
                &&& pos < p.1 <= bytes@.len()
            },
            None => parse_tick(bytes@, pos as int) is None,
        },
{
    if pos >= bytes.len() {
        return None;
    }
    let b = bytes[pos];
    if b < 251 {
        Some((b as u32, pos + 1))
    } else if b == 251 {
        if bytes.len() - pos >= 3 {
            let v = bytes[pos + 1] as u32 + 256 * (bytes[pos + 2] as u32);
            Some((v, pos + 3))
        } else {
            None
        }
    } else if b == 252 {
        if bytes.len() - pos >= 5 {
            let v = bytes[pos + 1] as u32 + 256 * (bytes[pos + 2] as u32)
                + 0x10000 * (bytes[pos + 3] as u32) + 0x1000000 * (bytes[pos + 4] as u32);
            Some((v, pos + 5))
        } else {
            None
        }
    } else {
        None
    }
}

/// Wire encoding of one acknowledgment: the tick of the confirmed mutate
/// message, then its registration index.
pub open spec fn ack_bytes(t: RepliconTick, index: u16) -> Seq<u8> {
    tick_bytes(t) + crate::varint::varint_bytes(index as nat)
}

/// Encodes the acknowledgment a client sends back for one mutate message.
pub fn write_ack(buf: &mut Vec<u8>, t: RepliconTick, index: u16)
    ensures
        final(buf)@ == old(buf)@ + ack_bytes(t, index),
{
    write_tick(buf, t);
    crate::varint::write_varint(buf, index as u64);
    proof {
        assert(buf@ =~= old(buf)@ + ack_bytes(t, index));
    }
}

/// Reads one acknowledgment; `None` exactly when the bytes are malformed
/// or do not fill the message, in which case the server drops it.
pub fn read_ack(bytes: &[u8]) -> (r: Option<(RepliconTick, u16)>)
    ensures
        match r {
            Some(p) => match parse_tick(bytes@, 0) {
                Some(t) => {
                    &&& p.0.spec_value() == t.0
                    &&& crate::varint::parse_varint(bytes@, t.1)
                        == Some((p.1 as nat, bytes@.len() as int))
                },
                None => false,
            },
            None => match parse_tick(bytes@, 0) {
                Some(t) => match crate::varint::parse_varint(bytes@, t.1) {
                    Some(p) => p.0 > u16::MAX || p.1 != bytes@.len(),
                    None => true,
                },
                None => true,
            },
        },
{
    let (tick_value, pos) = read_tick(bytes, 0)?;
    let (index, end) = crate::varint::read_varint(bytes, pos)?;
    if index > u16::MAX as u64 || end != bytes.len() {
        return None;
    }
    Some((RepliconTick::new(tick_value), index as u16))
}

/// Every acknowledgment encoding decodes back to the pair it came from.
pub proof fn lemma_parse_ack_of_encoding(t: RepliconTick, index: u16)
    ensures
        parse_tick(ack_bytes(t, index), 0) == Some((t.spec_value(), tick_bytes(t).len() as int)),
        crate::varint::parse_varint(ack_bytes(t, index), tick_bytes(t).len() as int)
            == Some((index as nat, ack_bytes(t, index).len() as int)),
{
    let s = ack_bytes(t, index);
    assert(s.subrange(0, tick_bytes(t).len() as int) =~= tick_bytes(t));
    lemma_parse_tick_of_encoding(s, 0, t);
    let mid = tick_bytes(t).len() as int;
    let tail = crate::varint::varint_bytes(index as nat);
    assert(s.subrange(mid, mid + tail.len() as int) =~= tail);
    crate::varint::lemma_parse_of_encoding(s, mid, index as nat);
}

/// Every tick encoding decodes back to the value it came from, wherever it
/// sits in a larger message.
pub proof fn lemma_parse_tick_of_encoding(s: Seq<u8>, pos: int, t: RepliconTick)
    requires
        0 <= pos,
        pos + tick_bytes(t).len() <= s.len(),
        s.subrange(pos, pos + tick_bytes(t).len()) == tick_bytes(t),
    ensures
        parse_tick(s, pos) == Some((t.spec_value(), pos + tick_bytes(t).len())),
{
    let v = t.spec_value();
    let enc = tick_bytes(t);
    let sub = s.subrange(pos, pos + enc.len() as int);
    assert(sub[0] == s[pos]);
    if v < 251 {
        assert(parse_tick(s, pos) == Some((v, pos + 1)));
    } else if v <= 0xFFFF {
        assert(sub[1] == s[pos + 1] && sub[2] == s[pos + 2]);
        assert(s[pos] == 251);
        assert(s[pos + 1] + 256 * s[pos + 2] == v) by (nonlinear_arith)
            requires
                s[pos + 1] == v % 256,
                s[pos + 2] == v / 256,
                v <= 0xFFFF,
        ;
    } else {
        assert(sub[1] == s[pos + 1] && sub[2] == s[pos + 2] && sub[3] == s[pos + 3]
            && sub[4] == s[pos + 4]);
        assert(s[pos + 1] + 256 * s[pos + 2] + 0x10000 * s[pos + 3] + 0x1000000 * s[pos + 4] == v)
            by (nonlinear_arith)
            requires
                s[pos + 1] == v % 256,
                s[pos + 2] == (v / 256) % 256,
                s[pos + 3] == (v / 0x10000) % 256,
                s[pos + 4] == v / 0x1000000,
                v <= u32::MAX,
        ;
        assert(s[pos] == 252);
        assert(parse_tick(s, pos) == Some((v, pos + 5)));
    }
}

} // verus!
