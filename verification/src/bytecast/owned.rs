//! Vectors and strings as bytes: the length, then the items.

use vstd::prelude::*;
use vstd::utf8::{decode_utf8, encode_utf8, valid_utf8};
use crate::bytecast::varint::{
    lemma_varint_canonical, lemma_varint_round_trip, parse_varint, read_varint, varint,
    varint_len, write_varint,
};
use crate::bytecast::{BytesError, FromBytes, ToBytes};

verus! {

/// The bytes of the items, one after the other.
pub open spec fn concat<T: ToBytes>(items: Seq<T::V>) -> Seq<u8>
    decreases items.len(),
{
    if items.len() == 0 {
        Seq::empty()
    } else {
        concat::<T>(items.drop_last()) + T::encode(items.last())
    }
}

/// The first `n` items at the front of `bytes` and the number of bytes they
/// take, or why the first item that cannot be read cannot.
pub open spec fn parse_items<T: FromBytes>(bytes: Seq<u8>, n: nat) -> Result<
    (Seq<T::V>, nat),
    BytesError,
>
    decreases n,
{
    if n == 0 {
        Ok((Seq::empty(), 0))
    } else {
        match parse_items::<T>(bytes, (n - 1) as nat) {
            Err(e) => Err(e),
            Ok((front, used)) => if used > bytes.len() {
                Err(BytesError::UnexpectedEof)
            } else {
                match T::parse(bytes.skip(used as int)) {
                    Err(e) => Err(e),
                    Ok((item, more)) => Ok((front.push(item), used + more)),
                }
            },
        }
    }
}

/// Every item can be held by a program.
pub open spec fn all_representable<T: ToBytes>(items: Seq<T::V>) -> bool {
    forall|i: int| 0 <= i < items.len() ==> T::representable(#[trigger] items[i])
}

/// The bytes of a run of items are the bytes of its front and of its last
/// item.
pub proof fn lemma_concat_push<T: ToBytes>(items: Seq<T::V>, item: T::V)
    ensures
        concat::<T>(items.push(item)) == concat::<T>(items) + T::encode(item),
{
    assert(items.push(item).drop_last() =~= items);
}

/// Items that were written one after the other are read back, whatever
/// follows them.
pub proof fn lemma_items_round_trip<T: FromBytes>(items: Seq<T::V>, rest: Seq<u8>)
    requires
        all_representable::<T>(items),
    ensures
        parse_items::<T>(concat::<T>(items) + rest, items.len()) == Ok::<
            (Seq<T::V>, nat),
            BytesError,
        >((items, concat::<T>(items).len())),
    decreases items.len(),
{
    if items.len() > 0 {
        let front = items.drop_last();
        let last = items.last();
        let bytes = concat::<T>(items) + rest;
        let used = concat::<T>(front).len();
        assert(all_representable::<T>(front)) by {
            assert forall|i: int| 0 <= i < front.len() implies T::representable(
                #[trigger] front[i],
            ) by {
                assert(front[i] == items[i]);
                assert(0 <= i < items.len());
            }
        }
        assert(T::representable(items[items.len() - 1]));
        lemma_items_round_trip::<T>(front, T::encode(last) + rest);
        assert(concat::<T>(front) + (T::encode(last) + rest) =~= bytes);
        assert(bytes.skip(used as int) =~= T::encode(last) + rest);
        T::lemma_round_trip(last, rest);
        assert(front.push(last) =~= items);
        assert(parse_items::<T>(bytes, front.len()) == Ok::<(Seq<T::V>, nat), BytesError>(
            (front, used),
        ));
        assert(T::parse(bytes.skip(used as int)) == Ok::<(T::V, nat), BytesError>(
            (last, T::encode(last).len()),
        ));
    } else {
        assert(items =~= Seq::<T::V>::empty());
    }
}

/// Items that are read are the items that would have been written.
pub proof fn lemma_items_canonical<T: FromBytes>(bytes: Seq<u8>, n: nat)
    ensures
        parse_items::<T>(bytes, n) matches Ok((items, used)) ==> {
            &&& items.len() == n
            &&& used <= bytes.len()
            &&& all_representable::<T>(items)
            &&& bytes.take(used as int) == concat::<T>(items)
        },
    decreases n,
{
    if n > 0 {
        lemma_items_canonical::<T>(bytes, (n - 1) as nat);
        if let Ok((front, used)) = parse_items::<T>(bytes, (n - 1) as nat) {
            if used <= bytes.len() {
                let tail = bytes.skip(used as int);
                T::lemma_canonical(tail);
                if let Ok((item, more)) = T::parse(tail) {
                    lemma_concat_push::<T>(front, item);
                    assert(bytes.take((used + more) as int) =~= bytes.take(used as int) + tail.take(
                        more as int,
                    ));
                }
            } else {
                assert(bytes.take(used as int) =~= bytes);
            }
        } else {
        }
    } else {
        assert(bytes.take(0) =~= Seq::<u8>::empty());
    }
}

/// A run of items that cannot be read stays unreadable however many more
/// items are asked for.
pub proof fn lemma_items_fail<T: FromBytes>(bytes: Seq<u8>, i: nat, n: nat)
    requires
        i <= n,
        parse_items::<T>(bytes, i) is Err,
    ensures
        parse_items::<T>(bytes, n) == parse_items::<T>(bytes, i),
    decreases n,
{
    if i < n {
        lemma_items_fail::<T>(bytes, i, (n - 1) as nat);
    }
}

impl<T: ToBytes> ToBytes for Vec<T> {
    open spec fn representable(value: Seq<T::V>) -> bool {
        value.len() <= usize::MAX && all_representable::<T>(value)
    }

    open spec fn encode(value: Seq<T::V>) -> Seq<u8> {
        varint(value.len()) + concat::<T>(value)
    }

    fn byte_len(&self) -> (len: Option<usize>) {
        let ghost items = self.deep_view();
        let n = self.len();
        let mut total: usize = varint_len(n as u64);
        let mut i: usize = 0;
        proof {
            assert(items.take(0) =~= Seq::<T::V>::empty());
        }
        while i < n
            invariant
                i <= n == self@.len(),
                items == self.deep_view(),
                total == varint(n as nat).len() + concat::<T>(items.take(i as int)).len(),
                all_representable::<T>(items.take(i as int)),
            decreases n - i,
        {
            let item = self[i].byte_len();
            let ghost bytes = T::encode(items[i as int]);
            proof {
                assert(items.take(i + 1) =~= items.take(i as int).push(items[i as int]));
                lemma_concat_push::<T>(items.take(i as int), items[i as int]);
                lemma_concat_grows::<T>(items, (i + 1) as nat);
                assert(concat::<T>(items.take(i + 1)).len() == concat::<T>(
                    items.take(i as int),
                ).len() + bytes.len());
            }
            let more = match item {
                Some(more) => more,
                None => {
                    return None;
                },
            };
            total = match total.checked_add(more) {
                Some(total) => total,
                None => {
                    return None;
                },
            };
            i += 1;
        }
        proof {
            assert(items.take(n as int) =~= items);
        }
        Some(total)
    }

    fn to_bytes(&self, buf: &mut [u8]) -> (written: Result<usize, BytesError>) {
        let ghost items = self.deep_view();
        let n = self.len();
        let room = buf.len();
        let total = match self.byte_len() {
            Some(total) => total,
            None => {
                return Err(BytesError::BufferTooSmall);
            },
        };
        if room < total {
            return Err(BytesError::BufferTooSmall);
        }
        let mut pos: usize = match write_varint(buf, n as u64) {
            Ok(pos) => pos,
            Err(e) => {
                return Err(e);
            },
        };
        let mut i: usize = 0;
        proof {
            assert(items.take(0) =~= Seq::<T::V>::empty());
            assert(buf@.take(pos as int) =~= varint(n as nat));
        }
        while i < n
            invariant
                i <= n == self@.len(),
                items == self.deep_view(),
                buf@.len() == old(buf)@.len(),
                total == varint(n as nat).len() + concat::<T>(items).len(),
                total <= buf@.len(),
                pos == varint(n as nat).len() + concat::<T>(items.take(i as int)).len(),
                buf@.take(pos as int) == varint(n as nat) + concat::<T>(items.take(i as int)),
                buf@.skip(pos as int) == old(buf)@.skip(pos as int),
            decreases n - i,
        {
            let ghost before = buf@;
            proof {
                assert(items.take(i + 1) =~= items.take(i as int).push(items[i as int]));
                lemma_concat_push::<T>(items.take(i as int), items[i as int]);
                lemma_concat_grows::<T>(items, (i + 1) as nat);
            }
            let (head, tail) = buf.split_at_mut(pos);
            let more = match self[i].to_bytes(tail) {
                Ok(more) => more,
                Err(e) => {
                    return Err(e);
                },
            };
            proof {
                let item = T::encode(items[i as int]);
                assert(buf@ =~= before.take(pos as int) + (item + before.skip(pos + more)));
                assert(buf@.take(pos + more) =~= before.take(pos as int) + item);
                assert(buf@.skip(pos + more) =~= old(buf)@.skip(pos + more));
            }
            pos += more;
            i += 1;
        }
        proof {
            assert(items.take(n as int) =~= items);
            assert(buf@ =~= buf@.take(pos as int) + buf@.skip(pos as int));
        }
        Ok(pos)
    }
}

/// The bytes of the first items of a run are no more than the bytes of all
/// of them.
pub proof fn lemma_concat_grows<T: ToBytes>(items: Seq<T::V>, i: nat)
    requires
        i <= items.len(),
    ensures
        concat::<T>(items.take(i as int)).len() <= concat::<T>(items).len(),
    decreases items.len() - i,
{
    if i < items.len() {
        lemma_concat_grows::<T>(items, i + 1);
        assert(items.take(i + 1 as int) =~= items.take(i as int).push(items[i as int]));
        lemma_concat_push::<T>(items.take(i as int), items[i as int]);
    } else {
        assert(items.take(i as int) =~= items);
    }
}

impl<T: FromBytes> FromBytes for Vec<T> {
    open spec fn parse(bytes: Seq<u8>) -> Result<(Seq<T::V>, nat), BytesError> {
        match parse_varint(bytes) {
            Err(e) => Err(e),
            Ok((n, start)) => if n > usize::MAX || start > bytes.len() {
                Err(BytesError::InvalidData)
            } else {
                match parse_items::<T>(bytes.skip(start as int), n) {
                    Err(e) => Err(e),
                    Ok((items, used)) => Ok((items, start + used)),
                }
            },
        }
    }

    fn from_bytes(buf: &[u8]) -> (read: Result<(Self, usize), BytesError>) {
        let (n, start) = match read_varint(buf) {
            Ok(read) => read,
            Err(e) => {
                return Err(e);
            },
        };
        proof {
            lemma_varint_canonical(buf@);
        }
        if n > usize::MAX as u64 {
            return Err(BytesError::InvalidData);
        }
        let whole = buf.len();
        let body = buf.split_at(start).1;
        let room = body.len();
        let mut items: Vec<T> = Vec::new();
        let mut pos: usize = 0;
        let mut i: u64 = 0;
        proof {
            assert(body@ =~= buf@.skip(start as int));
            assert(items.deep_view() =~= Seq::<T::V>::empty());
        }
        while i < n
            invariant
                i <= n <= usize::MAX,
                start <= buf@.len(),
                parse_varint(buf@) == Ok::<(nat, nat), BytesError>((n as nat, start as nat)),
                body@ == buf@.skip(start as int),
                pos <= body@.len() == room,
                start + room == whole,
                parse_items::<T>(body@, i as nat) == Ok::<(Seq<T::V>, nat), BytesError>(
                    (items.deep_view(), pos as nat),
                ),
            decreases n - i,
        {
            let ghost before = items.deep_view();
            let tail = body.split_at(pos).1;
            proof {
                assert(tail@ =~= body@.skip(pos as int));
                T::lemma_canonical(tail@);
            }
            let (item, more) = match T::from_bytes(tail) {
                Ok(read) => read,
                Err(e) => {
                    proof {
                        assert(parse_items::<T>(body@, (i + 1) as nat) == Err::<
                            (Seq<T::V>, nat),
                            BytesError,
                        >(e));
                        lemma_items_fail::<T>(body@, (i + 1) as nat, n as nat);
                    }
                    return Err(e);
                },
            };
            items.push(item);
            proof {
                assert(items.deep_view() =~= before.push(item.deep_view()));
                assert(parse_items::<T>(body@, (i + 1) as nat) == Ok::<
                    (Seq<T::V>, nat),
                    BytesError,
                >((items.deep_view(), (pos + more) as nat)));
            }
            pos += more;
            i += 1;
        }
        Ok((items, start + pos))
    }

    proof fn lemma_round_trip(value: Seq<T::V>, rest: Seq<u8>) {
        let n = value.len();
        let bytes = varint(n) + concat::<T>(value) + rest;
        lemma_varint_round_trip(n, concat::<T>(value) + rest);
        assert(varint(n) + (concat::<T>(value) + rest) =~= bytes);
        assert(bytes.skip(varint(n).len() as int) =~= concat::<T>(value) + rest);
        lemma_items_round_trip::<T>(value, rest);
    }

    proof fn lemma_canonical(bytes: Seq<u8>) {
        lemma_varint_canonical(bytes);
        if let Ok((n, start)) = parse_varint(bytes) {
            if n <= usize::MAX && start <= bytes.len() {
                let body = bytes.skip(start as int);
                lemma_items_canonical::<T>(body, n);
                if let Ok((items, used)) = parse_items::<T>(body, n) {
                    assert(bytes.take((start + used) as int) =~= bytes.take(start as int) + body.take(
                        used as int,
                    ));
                }
            }
        }
    }
}

/// The string that the bytes spell in UTF-8, if they spell one.
///
/// Calls `String::from_utf8`, which hands the bytes back as a string where
/// they are valid UTF-8 and fails where they are not.
#[verifier::external_body]
fn string_from_utf8(bytes: Vec<u8>) -> (text: Option<String>)
    ensures
        text matches Some(s) ==> valid_utf8(bytes@) && s@ == decode_utf8(bytes@),
        text is None ==> !valid_utf8(bytes@),
{
    String::from_utf8(bytes).ok()
}

/// What stands for a string: the number of its bytes in UTF-8, then the
/// bytes.
pub open spec fn encode_text(text: Seq<char>) -> Seq<u8> {
    varint(encode_utf8(text).len()) + encode_utf8(text)
}

/// The string at the front of `bytes` and the number of bytes it takes.
pub open spec fn parse_text(bytes: Seq<u8>) -> Result<(Seq<char>, nat), BytesError> {
    match parse_varint(bytes) {
        Err(e) => Err(e),
        Ok((n, start)) => if n > usize::MAX || start > bytes.len() {
            Err(BytesError::InvalidData)
        } else if bytes.len() - start < n {
            Err(BytesError::UnexpectedEof)
        } else if !valid_utf8(bytes.subrange(start as int, (start + n) as int)) {
            Err(BytesError::InvalidData)
        } else {
            Ok((decode_utf8(bytes.subrange(start as int, (start + n) as int)), start + n))
        },
    }
}

impl ToBytes for String {
    open spec fn representable(value: Seq<char>) -> bool {
        encode_utf8(value).len() <= usize::MAX
    }

    open spec fn encode(value: Seq<char>) -> Seq<u8> {
        encode_text(value)
    }

    fn byte_len(&self) -> (len: Option<usize>) {
        let n = self.as_str().as_bytes().len();
        varint_len(n as u64).checked_add(n)
    }

    fn to_bytes(&self, buf: &mut [u8]) -> (written: Result<usize, BytesError>) {
        let text = self.as_str().as_bytes();
        let n = text.len();
        let room = buf.len();
        let total = match self.byte_len() {
            Some(total) => total,
            None => {
                return Err(BytesError::BufferTooSmall);
            },
        };
        if room < total {
            return Err(BytesError::BufferTooSmall);
        }
        let start: usize = match write_varint(buf, n as u64) {
            Ok(start) => start,
            Err(e) => {
                return Err(e);
            },
        };
        let mut i: usize = 0;
        proof {
            assert(buf@.take(start as int) =~= varint(n as nat));
        }
        while i < n
            invariant
                i <= n == text@.len(),
                start == varint(n as nat).len(),
                start + n == total <= buf@.len(),
                buf@.len() == old(buf)@.len(),
                buf@.take(start + i) == varint(n as nat) + text@.take(i as int),
                buf@.skip(start + n) == old(buf)@.skip(start + n),
            decreases n - i,
        {
            let ghost before = buf@;
            buf[start + i] = text[i];
            proof {
                assert(buf@.take(start + i + 1) =~= before.take(start + i).push(text@[i as int]));
                assert(text@.take(i + 1) =~= text@.take(i as int).push(text@[i as int]));
                assert(buf@.skip(start + n) =~= before.skip(start + n));
            }
            i += 1;
        }
        proof {
            assert(text@.take(n as int) =~= text@);
            assert(buf@ =~= buf@.take(start + n) + buf@.skip(start + n));
        }
        Ok(total)
    }
}

impl FromBytes for String {
    open spec fn parse(bytes: Seq<u8>) -> Result<(Seq<char>, nat), BytesError> {
        parse_text(bytes)
    }

    fn from_bytes(buf: &[u8]) -> (read: Result<(Self, usize), BytesError>) {
        let (n, start) = match read_varint(buf) {
            Ok(read) => read,
            Err(e) => {
                return Err(e);
            },
        };
        proof {
            lemma_varint_canonical(buf@);
        }
        if n > usize::MAX as u64 {
            return Err(BytesError::InvalidData);
        }
        let n = n as usize;
        if buf.len() - start < n {
            return Err(BytesError::UnexpectedEof);
        }
        let mut bytes: Vec<u8> = Vec::with_capacity(n);
        let mut i: usize = 0;
        while i < n
            invariant
                i <= n,
                start + n <= buf@.len(),
                bytes@ == buf@.subrange(start as int, start + i),
            decreases n - i,
        {
            bytes.push(buf[start + i]);
            proof {
                assert(bytes@ =~= buf@.subrange(start as int, start + i + 1));
            }
            i += 1;
        }
        match string_from_utf8(bytes) {
            Some(text) => Ok((text, start + n)),
            None => Err(BytesError::InvalidData),
        }
    }

    proof fn lemma_round_trip(value: Seq<char>, rest: Seq<u8>) {
        let body = encode_utf8(value);
        let n = body.len();
        let bytes = varint(n) + body + rest;
        lemma_varint_round_trip(n, body + rest);
        assert(varint(n) + (body + rest) =~= bytes);
        let start = varint(n).len();
        assert(bytes.subrange(start as int, (start + n) as int) =~= body);
        vstd::utf8::encode_utf8_valid_utf8(value);
        vstd::utf8::encode_utf8_decode_utf8(value);
    }

    proof fn lemma_canonical(bytes: Seq<u8>) {
        lemma_varint_canonical(bytes);
        if let Ok((n, start)) = parse_varint(bytes) {
            if n <= usize::MAX && start <= bytes.len() && bytes.len() - start >= n {
                let body = bytes.subrange(start as int, (start + n) as int);
                if valid_utf8(body) {
                    vstd::utf8::decode_utf8_encode_utf8(body);
                    assert(bytes.take((start + n) as int) =~= bytes.take(start as int) + body);
                }
            }
        }
    }
}

} // verus!
