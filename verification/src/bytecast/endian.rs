//! Unsigned integers as bytes, least significant byte first.

use vstd::prelude::*;
use crate::bytecast::{wrote, BytesError, FromBytes, ToBytes};

verus! {

/// The `width` low bytes of a number, least significant first.
pub open spec fn le_bytes(x: nat, width: nat) -> Seq<u8>
    decreases width,
{
    if width == 0 {
        Seq::empty()
    } else {
        seq![(x % 256) as u8] + le_bytes(x / 256, (width - 1) as nat)
    }
}

/// The number whose bytes these are, least significant first.
pub open spec fn le_value(bytes: Seq<u8>) -> nat
    decreases bytes.len(),
{
    if bytes.len() == 0 {
        0
    } else {
        bytes[0] as nat + 256 * le_value(bytes.skip(1))
    }
}

/// How many numbers `width` bytes can tell apart: 256 to that power.
pub open spec fn radix(width: nat) -> nat
    decreases width,
{
    if width == 0 {
        1
    } else {
        256 * radix((width - 1) as nat)
    }
}

/// The ranges of the widths up to eight bytes.
pub proof fn lemma_radix()
    ensures
        radix(0) == 1,
        radix(1) == 0x100,
        radix(2) == 0x1_0000,
        radix(3) == 0x100_0000,
        radix(4) == 0x1_0000_0000,
        radix(5) == 0x100_0000_0000,
        radix(6) == 0x1_0000_0000_0000,
        radix(7) == 0x100_0000_0000_0000,
        radix(8) == 0x1_0000_0000_0000_0000,
{
    reveal_with_fuel(radix, 10);
}

/// A number written in `width` bytes takes `width` bytes.
pub proof fn lemma_le_len(x: nat, width: nat)
    ensures
        le_bytes(x, width).len() == width,
    decreases width,
{
    if width > 0 {
        lemma_le_len(x / 256, (width - 1) as nat);
    }
}

/// Bytes stand for a number below the range of their width.
pub proof fn lemma_le_value_bound(bytes: Seq<u8>)
    ensures
        le_value(bytes) < radix(bytes.len()),
    decreases bytes.len(),
{
    if bytes.len() > 0 {
        lemma_le_value_bound(bytes.skip(1));
    }
}

/// A number that fits its width is read back from its bytes.
pub proof fn lemma_le_round_trip(x: nat, width: nat)
    requires
        x < radix(width),
    ensures
        le_value(le_bytes(x, width)) == x,
    decreases width,
{
    if width > 0 {
        let bytes = le_bytes(x, width);
        lemma_le_round_trip(x / 256, (width - 1) as nat);
        assert(bytes.skip(1) =~= le_bytes(x / 256, (width - 1) as nat));
    }
}

/// Bytes are the bytes of the number they stand for.
pub proof fn lemma_le_canonical(bytes: Seq<u8>)
    ensures
        le_bytes(le_value(bytes), bytes.len()) == bytes,
    decreases bytes.len(),
{
    if bytes.len() > 0 {
        lemma_le_canonical(bytes.skip(1));
        let x = le_value(bytes);
        assert(x % 256 == bytes[0] as nat);
        assert(x / 256 == le_value(bytes.skip(1)));
        assert(le_bytes(x, bytes.len()) =~= bytes);
    } else {
        assert(le_bytes(le_value(bytes), 0) =~= bytes);
    }
}

/// Writes the `width` low bytes of `x` at the front of `buf`.
pub fn write_le(buf: &mut [u8], x: u64, width: usize) -> (written: Result<usize, BytesError>)
    requires
        width <= 8,
    ensures
        wrote(old(buf)@, final(buf)@, le_bytes(x as nat, width as nat), written),
{
    proof {
        lemma_le_len(x as nat, width as nat);
    }
    if buf.len() < width {
        return Err(BytesError::BufferTooSmall);
    }
    let mut left: u64 = x;
    let mut at: usize = 0;
    while at < width
        invariant
            at <= width <= buf@.len(),
            buf@.len() == old(buf)@.len(),
            le_bytes(x as nat, width as nat) == buf@.take(at as int) + le_bytes(
                left as nat,
                (width - at) as nat,
            ),
            buf@.skip(width as int) == old(buf)@.skip(width as int),
        decreases width - at,
    {
        let byte: u8 = (left % 256) as u8;
        let ghost before = buf@;
        buf[at] = byte;
        proof {
            assert(buf@.take(at + 1) =~= before.take(at as int).push(byte));
            assert(buf@.take(at + 1) + le_bytes((left / 256) as nat, (width - at - 1) as nat)
                =~= before.take(at as int) + le_bytes(left as nat, (width - at) as nat));
            assert(buf@.skip(width as int) =~= before.skip(width as int));
        }
        left = left / 256;
        at += 1;
    }
    proof {
        assert(buf@.take(width as int) =~= le_bytes(x as nat, width as nat));
        assert(buf@ =~= le_bytes(x as nat, width as nat) + old(buf)@.skip(width as int));
    }
    Ok(width)
}

/// Reads the number that the first `width` bytes of `buf` stand for.
pub fn read_le(buf: &[u8], width: usize) -> (read: Result<u64, BytesError>)
    requires
        width <= 8,
    ensures
        read == (if buf@.len() < width {
            Err::<u64, BytesError>(BytesError::UnexpectedEof)
        } else {
            Ok::<u64, BytesError>(le_value(buf@.take(width as int)) as u64)
        }),
        buf@.len() >= width ==> le_value(buf@.take(width as int)) <= u64::MAX,
{
    if buf.len() < width {
        return Err(BytesError::UnexpectedEof);
    }
    let ghost bytes = buf@.take(width as int);
    let mut acc: u64 = 0;
    let mut i: usize = 0;
    proof {
        lemma_radix();
        assert(bytes.skip(width as int) =~= Seq::<u8>::empty());
    }
    while i < width
        invariant
            i <= width <= 8,
            width <= buf@.len(),
            bytes == buf@.take(width as int),
            acc == le_value(bytes.skip(width - i)),
        decreases width - i,
    {
        let byte = buf[width - 1 - i];
        proof {
            let done = bytes.skip(width - i);
            let more = bytes.skip(width - i - 1);
            assert(more.skip(1) =~= done);
            assert(more[0] == byte);
            lemma_le_value_bound(done);
            lemma_le_value_bound(more);
            lemma_radix();
            assert(radix(done.len()) <= radix(7)) by {
                lemma_radix_grows(done.len(), 7);
            }
            assert(radix(more.len()) <= radix(8)) by {
                lemma_radix_grows(more.len(), 8);
            }
        }
        acc = acc * 256 + byte as u64;
        i += 1;
    }
    proof {
        assert(bytes.skip(0) =~= bytes);
        lemma_le_value_bound(bytes);
        lemma_radix_grows(bytes.len(), 8);
    }
    Ok(acc)
}

/// More bytes tell more numbers apart.
pub proof fn lemma_radix_grows(a: nat, b: nat)
    requires
        a <= b,
    ensures
        radix(a) <= radix(b),
        radix(a) >= 1,
    decreases b,
{
    if a < b {
        lemma_radix_grows(a, (b - 1) as nat);
    } else if a > 0 {
        lemma_radix_grows((a - 1) as nat, (a - 1) as nat);
    }
}

impl ToBytes for u32 {
    open spec fn representable(value: u32) -> bool {
        true
    }

    open spec fn encode(value: u32) -> Seq<u8> {
        le_bytes(value as nat, 4)
    }

    fn byte_len(&self) -> (len: Option<usize>) {
        proof {
            lemma_le_len(*self as nat, 4);
        }
        Some(4)
    }

    fn to_bytes(&self, buf: &mut [u8]) -> (written: Result<usize, BytesError>) {
        write_le(buf, *self as u64, 4)
    }
}

impl FromBytes for u32 {
    open spec fn parse(bytes: Seq<u8>) -> Result<(u32, nat), BytesError> {
        if bytes.len() < 4 {
            Err(BytesError::UnexpectedEof)
        } else {
            Ok((le_value(bytes.take(4)) as u32, 4))
        }
    }

    fn from_bytes(buf: &[u8]) -> (read: Result<(Self, usize), BytesError>) {
        proof {
            if buf@.len() >= 4 {
                lemma_le_value_bound(buf@.take(4));
                lemma_radix();
            }
        }
        match read_le(buf, 4) {
            Ok(value) => Ok((value as u32, 4)),
            Err(e) => Err(e),
        }
    }

    proof fn lemma_round_trip(value: u32, rest: Seq<u8>) {
        lemma_le_len(value as nat, 4);
        lemma_radix();
        lemma_le_round_trip(value as nat, 4);
        assert((le_bytes(value as nat, 4) + rest).take(4) =~= le_bytes(value as nat, 4));
    }

    proof fn lemma_canonical(bytes: Seq<u8>) {
        if bytes.len() >= 4 {
            lemma_le_canonical(bytes.take(4));
            lemma_le_value_bound(bytes.take(4));
            lemma_radix();
        }
    }
}

impl ToBytes for u64 {
    open spec fn representable(value: u64) -> bool {
        true
    }

    open spec fn encode(value: u64) -> Seq<u8> {
        le_bytes(value as nat, 8)
    }

    fn byte_len(&self) -> (len: Option<usize>) {
        proof {
            lemma_le_len(*self as nat, 8);
        }
        Some(8)
    }

    fn to_bytes(&self, buf: &mut [u8]) -> (written: Result<usize, BytesError>) {
        write_le(buf, *self, 8)
    }
}

impl FromBytes for u64 {
    open spec fn parse(bytes: Seq<u8>) -> Result<(u64, nat), BytesError> {
        if bytes.len() < 8 {
            Err(BytesError::UnexpectedEof)
        } else {
            Ok((le_value(bytes.take(8)) as u64, 8))
        }
    }

    fn from_bytes(buf: &[u8]) -> (read: Result<(Self, usize), BytesError>) {
        match read_le(buf, 8) {
            Ok(value) => Ok((value, 8)),
            Err(e) => Err(e),
        }
    }

    proof fn lemma_round_trip(value: u64, rest: Seq<u8>) {
        lemma_le_len(value as nat, 8);
        lemma_radix();
        lemma_le_round_trip(value as nat, 8);
        assert((le_bytes(value as nat, 8) + rest).take(8) =~= le_bytes(value as nat, 8));
    }

    proof fn lemma_canonical(bytes: Seq<u8>) {
        if bytes.len() >= 8 {
            lemma_le_canonical(bytes.take(8));
            lemma_le_value_bound(bytes.take(8));
            lemma_radix();
        }
    }
}

} // verus!
