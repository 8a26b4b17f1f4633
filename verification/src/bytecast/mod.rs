//! Values to bytes and back.
//!
//! Every type that can be written has one encoding, a function of its
//! value, and is read back by a parser that accepts that encoding and
//! nothing else.

pub mod owned;
pub mod endian;
pub mod varint;

use vstd::prelude::*;

verus! {

/// Why bytes could not be written or read.
#[derive(Debug, Clone, Copy, PartialEq, Eq, Structural)]
pub enum BytesError {
    /// The buffer has no room for the encoding.
    BufferTooSmall,
    /// The bytes end before the value does.
    UnexpectedEof,
    /// The bytes are not the encoding of any value.
    InvalidData,
}

/// What a write of `bytes` into a buffer that held `before` leaves behind:
/// the bytes at the front and the rest as it was, or, where the buffer is
/// too small, the buffer as it was.
pub open spec fn wrote(
    before: Seq<u8>,
    after: Seq<u8>,
    bytes: Seq<u8>,
    written: Result<usize, BytesError>,
) -> bool {
    if bytes.len() <= before.len() {
        &&& written == Ok::<usize, BytesError>(bytes.len() as usize)
        &&& after == bytes + before.skip(bytes.len() as int)
    } else {
        &&& written == Err::<usize, BytesError>(BytesError::BufferTooSmall)
        &&& after == before
    }
}

/// Types that are written as bytes.
pub trait ToBytes: DeepView {
    /// The value is one that a program can hold: its lengths fit the
    /// machine's words.
    spec fn representable(value: Self::V) -> bool;

    /// The bytes that stand for a value.
    spec fn encode(value: Self::V) -> Seq<u8>;

    /// The number of bytes that stand for this value, if a `usize` can hold
    /// it.
    fn byte_len(&self) -> (len: Option<usize>)
        ensures
            len is Some ==> Self::representable(self.deep_view()),
            len == (if Self::encode(self.deep_view()).len() <= usize::MAX {
                Some(Self::encode(self.deep_view()).len() as usize)
            } else {
                None
            }),
    ;

    /// Writes the value at the front of `buf` and returns the number of
    /// bytes written.
    fn to_bytes(&self, buf: &mut [u8]) -> (written: Result<usize, BytesError>)
        ensures
            written is Ok ==> Self::representable(self.deep_view()),
            wrote(old(buf)@, final(buf)@, Self::encode(self.deep_view()), written),
    ;
}

/// Types that are read from bytes.
pub trait FromBytes: ToBytes + Sized {
    /// The value at the front of `bytes` and the number of bytes it takes,
    /// or why there is none.
    spec fn parse(bytes: Seq<u8>) -> Result<(Self::V, nat), BytesError>;

    /// Reads a value from the front of `buf` and returns it with the number
    /// of bytes read.
    fn from_bytes(buf: &[u8]) -> (read: Result<(Self, usize), BytesError>)
        ensures
            match read {
                Ok((value, used)) => Self::parse(buf@) == Ok::<(Self::V, nat), BytesError>(
                    (value.deep_view(), used as nat),
                ),
                Err(e) => Self::parse(buf@) == Err::<(Self::V, nat), BytesError>(e),
            },
    ;

    /// What was written is read back, whatever follows it.
    proof fn lemma_round_trip(value: Self::V, rest: Seq<u8>)
        requires
            Self::representable(value),
        ensures
            Self::parse(Self::encode(value) + rest) == Ok::<(Self::V, nat), BytesError>(
                (value, Self::encode(value).len()),
            ),
    ;

    /// What is read is what would have been written: a parser accepts the
    /// encoding of a value and nothing else.
    proof fn lemma_canonical(bytes: Seq<u8>)
        ensures
            Self::parse(bytes) matches Ok((value, used)) ==> {
                &&& used <= bytes.len()
                &&& Self::representable(value)
                &&& bytes.take(used as int) == Self::encode(value)
            },
    ;
}

impl ToBytes for u8 {
    open spec fn representable(value: u8) -> bool {
        true
    }

    open spec fn encode(value: u8) -> Seq<u8> {
        seq![value]
    }

    fn byte_len(&self) -> (len: Option<usize>) {
        Some(1)
    }

    fn to_bytes(&self, buf: &mut [u8]) -> (written: Result<usize, BytesError>) {
        if buf.len() < 1 {
            return Err(BytesError::BufferTooSmall);
        }
        buf[0] = *self;
        proof {
            assert(final(buf)@ =~= seq![*self] + old(buf)@.skip(1));
        }
        Ok(1)
    }
}

impl FromBytes for u8 {
    open spec fn parse(bytes: Seq<u8>) -> Result<(u8, nat), BytesError> {
        if bytes.len() < 1 {
            Err(BytesError::UnexpectedEof)
        } else {
            Ok((bytes[0], 1))
        }
    }

    fn from_bytes(buf: &[u8]) -> (read: Result<(Self, usize), BytesError>) {
        if buf.len() < 1 {
            return Err(BytesError::UnexpectedEof);
        }
        Ok((buf[0], 1))
    }

    proof fn lemma_round_trip(value: u8, rest: Seq<u8>) {
    }

    proof fn lemma_canonical(bytes: Seq<u8>) {
        if bytes.len() >= 1 {
            assert(bytes.take(1) =~= seq![bytes[0]]);
        }
    }
}

impl ToBytes for bool {
    open spec fn representable(value: bool) -> bool {
        true
    }

    open spec fn encode(value: bool) -> Seq<u8> {
        if value {
            seq![1u8]
        } else {
            seq![0u8]
        }
    }

    fn byte_len(&self) -> (len: Option<usize>) {
        Some(1)
    }

    fn to_bytes(&self, buf: &mut [u8]) -> (written: Result<usize, BytesError>) {
        if buf.len() < 1 {
            return Err(BytesError::BufferTooSmall);
        }
        let byte: u8 = if *self {
            1
        } else {
            0
        };
        buf[0] = byte;
        proof {
            assert(final(buf)@ =~= seq![byte] + old(buf)@.skip(1));
        }
        Ok(1)
    }
}

impl FromBytes for bool {
    open spec fn parse(bytes: Seq<u8>) -> Result<(bool, nat), BytesError> {
        if bytes.len() < 1 {
            Err(BytesError::UnexpectedEof)
        } else if bytes[0] == 0 {
            Ok((false, 1))
        } else if bytes[0] == 1 {
            Ok((true, 1))
        } else {
            Err(BytesError::InvalidData)
        }
    }

    fn from_bytes(buf: &[u8]) -> (read: Result<(Self, usize), BytesError>) {
        if buf.len() < 1 {
            return Err(BytesError::UnexpectedEof);
        }
        let byte = buf[0];
        if byte == 0 {
            Ok((false, 1))
        } else if byte == 1 {
            Ok((true, 1))
        } else {
            Err(BytesError::InvalidData)
        }
    }

    proof fn lemma_round_trip(value: bool, rest: Seq<u8>) {
    }

    proof fn lemma_canonical(bytes: Seq<u8>) {
        if bytes.len() >= 1 {
            assert(bytes.take(1) =~= seq![bytes[0]]);
        }
    }
}

/// Writes values to vectors of bytes and reads them back.
#[derive(Debug, Clone, Copy)]
pub struct ByteSerializer;

impl Default for ByteSerializer {
    fn default() -> (serializer: Self) {
        ByteSerializer
    }
}

impl ByteSerializer {
    pub fn new() -> (serializer: Self) {
        ByteSerializer
    }

    /// The bytes that stand for a value, in a vector of their own. Fails
    /// only where a `usize` cannot hold their number.
    pub fn serialize<T: ToBytes>(&self, value: &T) -> (bytes: Result<Vec<u8>, BytesError>)
        ensures
            match bytes {
                Ok(bytes) => bytes@ == T::encode(value.deep_view()) && T::representable(
                    value.deep_view(),
                ),
                Err(e) => e == BytesError::BufferTooSmall && T::encode(value.deep_view()).len()
                    > usize::MAX,
            },
    {
        let len = match value.byte_len() {
            Some(len) => len,
            None => {
                return Err(BytesError::BufferTooSmall);
            },
        };
        let mut bytes: Vec<u8> = Vec::with_capacity(len);
        let mut i: usize = 0;
        while i < len
            invariant
                i <= len,
                bytes@.len() == i,
            decreases len - i,
        {
            bytes.push(0);
            i += 1;
        }
        let written = value.to_bytes(bytes.as_mut_slice());
        proof {
            assert(bytes@ =~= T::encode(value.deep_view()));
        }
        Ok(bytes)
    }

    /// The value at the front of `bytes`.
    pub fn deserialize<T: FromBytes>(&self, bytes: &[u8]) -> (value: Result<T, BytesError>)
        ensures
            match value {
                Ok(value) => T::parse(bytes@) matches Ok((parsed, _)) && parsed
                    == value.deep_view(),
                Err(e) => T::parse(bytes@) == Err::<(T::V, nat), BytesError>(e),
            },
    {
        match T::from_bytes(bytes) {
            Ok((value, _)) => Ok(value),
            Err(e) => Err(e),
        }
    }
}

} // verus!
