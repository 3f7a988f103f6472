//! Variable-length integer encoding used throughout the wire format.
//!
//! An integer is stored base-128, least significant group first; every byte
//! but the last has its high bit set. A `u32` therefore never takes more than
//! five bytes and a `u64` never more than ten.

use vstd::prelude::*;

verus! {

/// The encoding of `n`: base-128 groups, least significant first, high bit
/// set on every byte except the final one.
pub open spec fn varint_bytes(n: nat) -> Seq<u8>
    decreases n,
{
    if n < 128 {
        seq![n as u8]
    } else {
        seq![(128 + n % 128) as u8] + varint_bytes(n / 128)
    }
}

/// Result of parsing a varint inside `s` starting at `pos`: the decoded
/// value and the position just past its last byte.
pub open spec fn parse_varint(s: Seq<u8>, pos: int) -> Option<(nat, int)>
    decreases s.len() - pos,
{
    if pos < 0 || pos >= s.len() {
        None
    } else if s[pos] < 128 {
        Some((s[pos] as nat, pos + 1))
    } else {
        match parse_varint(s, pos + 1) {
            None => None,
            Some((v, end)) => Some((((s[pos] - 128) + 128 * v) as nat, end)),
        }
    }
}

/// Every encoding decodes back to the value it came from, wherever it sits
/// in a larger message.
pub proof fn lemma_parse_of_encoding(s: Seq<u8>, pos: int, n: nat)
    requires
        0 <= pos,
        pos + varint_bytes(n).len() <= s.len(),
        s.subrange(pos, pos + varint_bytes(n).len()) == varint_bytes(n),
    ensures
        parse_varint(s, pos) == Some((n, pos + varint_bytes(n).len())),
    decreases n,
{
    let enc = varint_bytes(n);
    assert(s[pos] == enc[0]);
    if n < 128 {
        assert(enc =~= seq![n as u8]);
        assert(s[pos] == n as u8);
    } else {
        let tail = varint_bytes(n / 128);
        assert(enc =~= seq![(128 + n % 128) as u8] + tail);
        assert(s[pos] == (128 + n % 128) as u8);
        assert(s[pos] >= 128);
        assert(s.subrange(pos + 1, pos + 1 + tail.len() as int) =~= tail) by {
            assert forall|i: int| 0 <= i < tail.len() implies s[pos + 1 + i] == tail[i] by {
                assert(s[pos + 1 + i] == enc[1 + i]);
            }
        }
        lemma_parse_of_encoding(s, pos + 1, n / 128);
        assert((s[pos] - 128) + 128 * (n / 128) == n) by {
            assert(s[pos] - 128 == n % 128);
            assert(n % 128 + 128 * (n / 128) == n) by (nonlinear_arith);
        }
    }
}

/// Encodings of values below `2^(7 * k)` take at most `k` bytes.
pub proof fn lemma_varint_bytes_len(n: nat, k: nat)
    requires
        n < pow128(k),
        k >= 1,
    ensures
        1 <= varint_bytes(n).len() <= k,
    decreases k,
{
    if n < 128 {
    } else {
        assert(k >= 2) by {
            reveal_with_fuel(pow128, 2);
        }
        assert(n / 128 < pow128((k - 1) as nat)) by (nonlinear_arith)
            requires
                n < pow128(k),
                pow128(k) == 128 * pow128((k - 1) as nat),
        ;
        lemma_varint_bytes_len(n / 128, (k - 1) as nat);
    }
}

/// `128^k`.
pub open spec fn pow128(k: nat) -> nat
    decreases k,
{
    if k == 0 {
        1
    } else {
        128 * pow128((k - 1) as nat)
    }
}

/// Appends the encoding of `value` to `buf`.
pub fn write_varint(buf: &mut Vec<u8>, value: u64)
    ensures
        final(buf)@ == old(buf)@ + varint_bytes(value as nat),
{
    let mut v: u64 = value;
    while v >= 128
        invariant
            buf@ + varint_bytes(v as nat) == old(buf)@ + varint_bytes(value as nat),
        decreases v,
    {
        let ghost pre = buf@;
        buf.push((v % 128 + 128) as u8);
        assert(buf@ + varint_bytes((v / 128) as nat) =~= pre + varint_bytes(v as nat));
        v = v / 128;
    }
    let ghost pre = buf@;
    buf.push(v as u8);
    assert(buf@ =~= pre + varint_bytes(v as nat));
}

/// Number of bytes the encoding of `value` takes.
pub fn required_space(value: u64) -> (r: usize)
    ensures
        r == varint_bytes(value as nat).len(),
        1 <= r <= 10,
{
    proof {
        assert(u64::MAX < pow128(10)) by {
            reveal_with_fuel(pow128, 11);
        }
        lemma_varint_bytes_len(value as nat, 10);
    }
    let mut v: u64 = value;
    let mut n: usize = 1;
    while v >= 128
        invariant
            n + varint_bytes(v as nat).len() == 1 + varint_bytes(value as nat).len(),
            1 <= n <= varint_bytes(value as nat).len(),
            varint_bytes(value as nat).len() <= 10,
        decreases v,
    {
        v = v / 128;
        n = n + 1;
    }
    n
}

/// Reads one varint out of `bytes` starting at `pos`.
///
/// Returns the decoded value with the position just past it, or `None` when
/// the bytes at `pos` hold no varint that fits in a `u64`: the input ends in
/// the middle of one, or the decoded value overflows.
pub fn read_varint(bytes: &[u8], pos: usize) -> (r: Option<(u64, usize)>)
    requires
        pos <= bytes@.len(),
    ensures
        match r {
            Some(p) => {
                &&& parse_varint(bytes@, pos as int) == Some((p.0 as nat, p.1 as int))
                &&& pos < p.1 <= bytes@.len()
            },
            None => match parse_varint(bytes@, pos as int) {
                None => true,
                Some(p) => p.0 > u64::MAX,
            },
        },
    decreases bytes@.len() - pos,
{
    if pos >= bytes.len() {
        return None;
    }
    let b = bytes[pos];
    if b < 128 {
        Some((b as u64, pos + 1))
    } else {
        match read_varint(bytes, pos + 1) {
            None => None,
            Some((v, end)) => {
                let group = (b - 128) as u64;
                if v > (u64::MAX - group) / 128 {
                    proof {
                        let p = parse_varint(bytes@, pos as int).unwrap();
                        assert(p.0 == group + 128 * (v as nat));
                        assert(group + 128 * (v as nat) > u64::MAX) by (nonlinear_arith)
                            requires
                                v > (u64::MAX - group) / 128,
                                group < 128,
                        ;
                    }
                    None
                } else {
                    proof {
                        assert(group + 128 * (v as nat) <= u64::MAX) by (nonlinear_arith)
                            requires
                                v <= (u64::MAX - group) / 128,
                                group < 128,
                        ;
                    }
                    Some((group + 128 * v, end))
                }
            },
        }
    }
}

} // verus!
