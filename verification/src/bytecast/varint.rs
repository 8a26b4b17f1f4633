//! Lengths as bytes: seven bits to a byte, least significant first. Every
//! byte but the last has its top bit set.

use vstd::prelude::*;
use crate::bytecast::{wrote, BytesError};

verus! {

/// The most bytes that a length takes.
pub const MAX_VARINT_LEN: usize = 10;

/// The bytes that stand for a number.
pub open spec fn varint(n: nat) -> Seq<u8>
    decreases n,
{
    if n < 128 {
        seq![n as u8]
    } else {
        seq![(n % 128 + 128) as u8] + varint(n / 128)
    }
}

/// The weight of the seven bits in the byte at `pos`: 128 to that power.
pub open spec fn scale_at(pos: nat) -> nat
    decreases pos,
{
    if pos == 0 {
        1
    } else {
        128 * scale_at((pos - 1) as nat)
    }
}

/// Reads on from the byte at `pos`, with `acc` read so far. A number ends
/// with the first byte below 128. It is refused where it takes more than ten
/// bytes, does not fit 64 bits, or ends in a zero byte that a shorter form
/// would not have.
pub open spec fn scan(bytes: Seq<u8>, pos: nat, acc: nat) -> Result<(nat, nat), BytesError>
    decreases bytes.len() - pos,
{
    if pos >= MAX_VARINT_LEN {
        Err(BytesError::InvalidData)
    } else if pos >= bytes.len() {
        Err(BytesError::UnexpectedEof)
    } else {
        let byte = bytes[pos as int];
        let value = acc + (byte % 128) as nat * scale_at(pos);
        if value > u64::MAX {
            Err(BytesError::InvalidData)
        } else if byte < 128 {
            if byte == 0 && pos > 0 {
                Err(BytesError::InvalidData)
            } else {
                Ok((value, pos + 1))
            }
        } else {
            scan(bytes, pos + 1, value)
        }
    }
}

/// The number at the front of `bytes` and how many bytes it takes.
pub open spec fn parse_varint(bytes: Seq<u8>) -> Result<(nat, nat), BytesError> {
    scan(bytes, 0, 0)
}

/// The weights up to the eleventh byte.
pub proof fn lemma_scales()
    ensures
        scale_at(0) == 1,
        scale_at(1) == 0x80,
        scale_at(2) == 0x4000,
        scale_at(3) == 0x20_0000,
        scale_at(4) == 0x1000_0000,
        scale_at(5) == 0x8_0000_0000,
        scale_at(6) == 0x400_0000_0000,
        scale_at(7) == 0x2_0000_0000_0000,
        scale_at(8) == 0x100_0000_0000_0000,
        scale_at(9) == 0x8000_0000_0000_0000,
        scale_at(10) == 0x40_0000_0000_0000_0000,
{
    reveal_with_fuel(scale_at, 12);
}

/// A later byte weighs more.
pub proof fn lemma_scale_grows(a: nat, b: nat)
    requires
        a <= b,
    ensures
        scale_at(a) <= scale_at(b),
        scale_at(a) >= 1,
    decreases b,
{
    if a < b {
        lemma_scale_grows(a, (b - 1) as nat);
    } else if a > 0 {
        lemma_scale_grows((a - 1) as nat, (a - 1) as nat);
    }
}

/// A weight that fits 64 bits is that of one of the first ten bytes.
pub proof fn lemma_scale_fits(pos: nat)
    requires
        scale_at(pos) <= u64::MAX,
    ensures
        pos < 10,
        scale_at(pos) <= 0x8000_0000_0000_0000,
        scale_at(pos + 1) == 128 * scale_at(pos),
{
    lemma_scales();
    if pos >= 10 {
        lemma_scale_grows(10, pos);
    } else {
        lemma_scale_grows(pos, 9);
    }
}

/// A number takes at least one byte.
pub proof fn lemma_varint_len(n: nat)
    ensures
        varint(n).len() >= 1,
        n < 128 ==> varint(n).len() == 1,
        128 <= n < 0x4000 ==> varint(n).len() == 2,
        n >= 128 ==> varint(n).len() == 1 + varint(n / 128).len(),
    decreases n,
{
    if n >= 128 {
        lemma_varint_len(n / 128);
    }
}

/// The first byte of a number: its low seven bits, and the top bit where
/// more bytes follow.
pub proof fn lemma_first_byte(m: nat)
    ensures
        m < 128 ==> varint(m)[0] == m && varint(m)[0] < 128,
        m >= 128 ==> varint(m)[0] >= 128 && varint(m)[0] % 128 == m % 128,
        m >= 128 ==> varint(m) == seq![varint(m)[0]] + varint(m / 128),
        m == 0 <==> varint(m)[0] == 0,
{
    if m >= 128 {
        let low = m % 128;
        assert(varint(m)[0] == (low + 128) as u8);
    }
}

/// Weights times payloads, added up.
proof fn lemma_weights(acc: nat, low: nat, high: nat, scale: nat)
    ensures
        acc + low * scale + high * (128 * scale) == acc + (128 * high + low) * scale,
        low * scale >= 0,
        high * (128 * scale) >= 0,
        high >= 1 ==> scale <= high * scale,
        (acc < scale && low <= 127) ==> acc + low * scale < 128 * scale,
{
    assert(acc + low * scale + high * (128 * scale) == acc + (128 * high + low) * scale)
        by (nonlinear_arith);
    assert(low * scale >= 0) by (nonlinear_arith);
    assert(high * (128 * scale) >= 0) by (nonlinear_arith);
    if high >= 1 {
        assert(scale <= high * scale) by (nonlinear_arith)
            requires
                high >= 1,
        ;
    }
    if acc < scale && low <= 127 {
        assert(acc + low * scale < 128 * scale) by (nonlinear_arith)
            requires
                acc < scale,
                low <= 127,
        ;
    }
}

/// A number of 64 bits is read back from its bytes, whatever follows them,
/// from any place at which it may stand.
proof fn lemma_scan_varint(front: Seq<u8>, m: nat, rest: Seq<u8>, acc: nat)
    requires
        acc + m * scale_at(front.len()) <= u64::MAX,
        front.len() > 0 ==> m >= 1,
        front.len() == 0 ==> acc == 0,
    ensures
        scan(front + varint(m) + rest, front.len(), acc) == Ok::<(nat, nat), BytesError>(
            ((acc + m * scale_at(front.len())) as nat, front.len() + varint(m).len()),
        ),
    decreases m,
{
    let pos = front.len();
    let bytes = front + varint(m) + rest;
    let scale = scale_at(pos);
    lemma_varint_len(m);
    lemma_first_byte(m);
    lemma_weights(acc, 0, m, scale);
    if pos > 0 {
        lemma_scale_fits(pos);
    }
    assert(pos < 10);
    assert(bytes[pos as int] == varint(m)[0]);
    let byte = bytes[pos as int];
    if m >= 128 {
        let low = m % 128;
        let high = m / 128;
        let next = front.push(byte);
        assert(next + varint(high) + rest =~= bytes);
        lemma_weights(acc, low, high, scale);
        if pos == 0 {
            assert(scale_at(1) == 128 * scale_at(0));
        }
        assert(scale_at(next.len()) == 128 * scale);
        lemma_scan_varint(next, high, rest, acc + low * scale);
    } else {
        assert(m * scale == (byte % 128) as nat * scale);
    }
}

/// What was written is read back, whatever follows it.
pub proof fn lemma_varint_round_trip(n: nat, rest: Seq<u8>)
    requires
        n <= u64::MAX,
    ensures
        parse_varint(varint(n) + rest) == Ok::<(nat, nat), BytesError>((n, varint(n).len())),
        varint(n).len() <= MAX_VARINT_LEN,
{
    assert(scale_at(0) == 1);
    assert(n * 1 == n) by (nonlinear_arith);
    lemma_scan_varint(Seq::<u8>::empty(), n, rest, 0);
    assert(Seq::<u8>::empty() + varint(n) + rest =~= varint(n) + rest);
    lemma_scan_bounds(varint(n) + rest, 0, 0);
}

/// A number that is read takes bytes that are there, ten at most, and fits
/// 64 bits.
pub proof fn lemma_scan_bounds(bytes: Seq<u8>, pos: nat, acc: nat)
    ensures
        scan(bytes, pos, acc) matches Ok((value, used)) ==> pos < used <= bytes.len() && used
            <= MAX_VARINT_LEN && value <= u64::MAX,
    decreases bytes.len() - pos,
{
    if pos < MAX_VARINT_LEN && pos < bytes.len() {
        let byte = bytes[pos as int];
        let value = acc + (byte % 128) as nat * scale_at(pos);
        if value <= u64::MAX && byte >= 128 {
            lemma_scan_bounds(bytes, pos + 1, value);
        }
    }
}

/// `value` was read from the bytes of `bytes` from `pos` up to `used`, on
/// top of `acc`: they are the bytes of the number that was added.
pub open spec fn reads_as(bytes: Seq<u8>, pos: nat, acc: nat, value: nat, used: nat, m: nat) -> bool {
    &&& value == acc + m * scale_at(pos)
    &&& (pos > 0 ==> m >= 1)
    &&& varint(m) == bytes.subrange(pos as int, used as int)
}

/// What is read from the byte at `pos` on is what would have been written
/// there.
proof fn lemma_scan_canonical(bytes: Seq<u8>, pos: nat, acc: nat) -> (m: nat)
    requires
        acc < scale_at(pos),
        scan(bytes, pos, acc) is Ok,
    ensures
        pos < scan(bytes, pos, acc)->Ok_0.1 <= bytes.len(),
        reads_as(bytes, pos, acc, scan(bytes, pos, acc)->Ok_0.0, scan(bytes, pos, acc)->Ok_0.1, m),
    decreases bytes.len() - pos,
{
    let byte = bytes[pos as int];
    let scale = scale_at(pos);
    let low = (byte % 128) as nat;
    let value = acc + low * scale;
    lemma_scan_bounds(bytes, pos, acc);
    if byte < 128 {
        let m = byte as nat;
        lemma_first_byte(m);
        lemma_varint_len(m);
        assert(varint(m) =~= bytes.subrange(pos as int, pos + 1 as int));
        m
    } else {
        lemma_weights(acc, low, 0, scale);
        assert(scale_at(pos + 1) == 128 * scale);
        let high = lemma_scan_canonical(bytes, pos + 1, value);
        let used = scan(bytes, pos + 1, value)->Ok_0.1;
        let m = low + 128 * high;
        lemma_weights(acc, low, high, scale);
        lemma_first_byte(m);
        lemma_varint_len(m);
        assert(m / 128 == high && m % 128 == low);
        assert(varint(m)[0] == byte);
        assert(bytes.subrange(pos as int, used as int) =~= seq![byte] + bytes.subrange(
            pos + 1 as int,
            used as int,
        ));
        m
    }
}

/// What is read is what would have been written: the bytes taken are the
/// bytes of the number.
pub proof fn lemma_varint_canonical(bytes: Seq<u8>)
    ensures
        parse_varint(bytes) matches Ok((value, used)) ==> used <= bytes.len() && value
            <= u64::MAX && bytes.take(used as int) == varint(value),
{
    if parse_varint(bytes) is Ok {
        assert(scale_at(0) == 1);
        let m = lemma_scan_canonical(bytes, 0, 0);
        lemma_scan_bounds(bytes, 0, 0);
        let used = parse_varint(bytes)->Ok_0.1;
        assert(m * 1 == m) by (nonlinear_arith);
        assert(bytes.take(used as int) =~= bytes.subrange(0, used as int));
    }
}

/// The number of bytes that a number takes.
pub fn varint_len(n: u64) -> (len: usize)
    ensures
        len == varint(n as nat).len(),
        1 <= len <= MAX_VARINT_LEN,
{
    proof {
        lemma_varint_round_trip(n as nat, Seq::empty());
    }
    let mut len: usize = 1;
    let mut left: u64 = n;
    while left >= 128
        invariant
            varint(n as nat).len() == (len - 1) + varint(left as nat).len(),
            1 <= len,
            varint(n as nat).len() <= MAX_VARINT_LEN,
        decreases left,
    {
        proof {
            lemma_varint_len((left / 128) as nat);
        }
        left = left / 128;
        len += 1;
    }
    len
}

/// Writes a number at the front of `buf` and returns the number of bytes
/// written.
pub fn write_varint(buf: &mut [u8], n: u64) -> (written: Result<usize, BytesError>)
    ensures
        wrote(old(buf)@, final(buf)@, varint(n as nat), written),
{
    let len = varint_len(n);
    if buf.len() < len {
        return Err(BytesError::BufferTooSmall);
    }
    let mut left: u64 = n;
    let mut at: usize = 0;
    while left >= 128
        invariant
            at < len <= buf@.len(),
            buf@.len() == old(buf)@.len(),
            varint(n as nat) == buf@.take(at as int) + varint(left as nat),
            len == varint(n as nat).len(),
            buf@.skip(len as int) == old(buf)@.skip(len as int),
        decreases left,
    {
        let byte: u8 = (left % 128 + 128) as u8;
        let ghost before = buf@;
        buf[at] = byte;
        proof {
            lemma_varint_len((left / 128) as nat);
            assert(buf@.take(at + 1) =~= before.take(at as int).push(byte));
            assert(buf@.take(at + 1) + varint((left / 128) as nat) =~= before.take(at as int)
                + varint(left as nat));
            assert(buf@.skip(len as int) =~= before.skip(len as int));
        }
        left = left / 128;
        at += 1;
    }
    let ghost before = buf@;
    buf[at] = left as u8;
    proof {
        assert(buf@.take(at + 1) =~= before.take(at as int).push(left as u8));
        assert(buf@.take(at + 1) =~= varint(n as nat));
        assert(buf@.skip(len as int) =~= before.skip(len as int));
        assert(buf@ =~= varint(n as nat) + old(buf)@.skip(len as int));
    }
    Ok(len)
}

/// Reads a number from the front of `buf` and returns it with the number of
/// bytes read.
pub fn read_varint(buf: &[u8]) -> (read: Result<(u64, usize), BytesError>)
    ensures
        match read {
            Ok((value, used)) => parse_varint(buf@) == Ok::<(nat, nat), BytesError>(
                (value as nat, used as nat),
            ),
            Err(e) => parse_varint(buf@) == Err::<(nat, nat), BytesError>(e),
        },
{
    let mut acc: u64 = 0;
    let mut scale: u64 = 1;
    let mut pos: usize = 0;
    proof {
        lemma_scales();
    }
    loop
        invariant
            pos <= MAX_VARINT_LEN,
            pos < MAX_VARINT_LEN ==> scale == scale_at(pos as nat),
            parse_varint(buf@) == scan(buf@, pos as nat, acc as nat),
        decreases MAX_VARINT_LEN - pos,
    {
        if pos >= MAX_VARINT_LEN {
            return Err(BytesError::InvalidData);
        }
        if pos >= buf.len() {
            return Err(BytesError::UnexpectedEof);
        }
        let byte = buf[pos];
        let low: u128 = (byte % 128) as u128;
        proof {
            lemma_scales();
            lemma_scale_grows(pos as nat, 9);
            assert(low * (scale as u128) <= 127 * 0x8000_0000_0000_0000) by (nonlinear_arith)
                requires
                    low <= 127,
                    scale <= 0x8000_0000_0000_0000,
            ;
        }
        let value: u128 = acc as u128 + low * (scale as u128);
        if value > u64::MAX as u128 {
            return Err(BytesError::InvalidData);
        }
        if byte < 128 {
            if byte == 0 && pos > 0 {
                return Err(BytesError::InvalidData);
            }
            return Ok((value as u64, pos + 1));
        }
        acc = value as u64;
        pos += 1;
        if pos < MAX_VARINT_LEN {
            proof {
                lemma_scales();
                lemma_scale_grows((pos - 1) as nat, 8);
                assert(scale_at(pos as nat) == 128 * scale_at((pos - 1) as nat));
            }
            scale = scale * 128;
        }
    }
}

} // verus!
