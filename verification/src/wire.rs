//! The wire format as mathematics: byte sequences, big-endian integers, and what an
//! encoder lays down.

use vstd::prelude::*;
use crate::DnsError;

verus! {

/// `buf` with `data` laid over it from index `at` on. What of `data` would fall past the
/// end of `buf` is dropped.
pub open spec fn splice(buf: Seq<u8>, at: int, data: Seq<u8>) -> Seq<u8> {
    Seq::new(
        buf.len(),
        |i: int|
            if at <= i < at + data.len() {
                data[i - at]
            } else {
                buf[i]
            },
    )
}

/// `buf` holds `data` from index `at` on.
pub open spec fn holds(buf: Seq<u8>, at: int, data: Seq<u8>) -> bool {
    &&& 0 <= at
    &&& at + data.len() <= buf.len()
    &&& buf.subrange(at, at + data.len()) == data
}

/// The two bytes of `v`, most significant first.
pub open spec fn be16(v: u16) -> Seq<u8> {
    seq![(v / 0x100) as u8, (v % 0x100) as u8]
}

/// The four bytes of `v`, most significant first.
pub open spec fn be32(v: u32) -> Seq<u8> {
    seq![
        (v / 0x100_0000) as u8,
        (v / 0x1_0000 % 0x100) as u8,
        (v / 0x100 % 0x100) as u8,
        (v % 0x100) as u8,
    ]
}

/// The bytes of the 16-bit integers `values`, one after the other, each most significant
/// byte first.
pub open spec fn be16s(values: Seq<u16>) -> Seq<u8>
    decreases values.len(),
{
    if values.len() == 0 {
        Seq::empty()
    } else {
        be16s(values.drop_last()) + be16(values.last())
    }
}

/// The big-endian 16-bit integer that `buf` holds at `at` and `at + 1`.
pub open spec fn u16_at(buf: Seq<u8>, at: int) -> u16 {
    (buf[at] * 0x100 + buf[at + 1]) as u16
}

/// The big-endian 32-bit integer that `buf` holds from `at` to `at + 3`.
pub open spec fn u32_at(buf: Seq<u8>, at: int) -> u32 {
    (buf[at] * 0x100_0000 + buf[at + 1] * 0x1_0000 + buf[at + 2] * 0x100 + buf[at + 3]) as u32
}

/// What reading makes of a message: a value or an error, and where it leaves the cursor.
pub struct Parsed<T> {
    pub result: Result<T, DnsError>,
    pub cursor: int,
}

impl<T> Parsed<T> {
    /// A reading that gave `value` and left the cursor at `cursor`.
    pub open spec fn done(value: T, cursor: int) -> Parsed<T> {
        Parsed { result: Ok(value), cursor }
    }

    /// A reading that failed with `error` and left the cursor at `cursor`.
    pub open spec fn failed(error: DnsError, cursor: int) -> Parsed<T> {
        Parsed { result: Err(error), cursor }
    }
}

/// Where a reading of several bytes that runs out of buffer leaves a cursor that stood at
/// `at`: at the end of the buffer, unless it stood past it already.
pub open spec fn end_from(at: int) -> int {
    if at >= 512 {
        at
    } else {
        512
    }
}

/// What an encoder lays down when room is no concern: the bytes up to the point where it
/// stops, and whether it stopped in front of a label that is too long to be written.
pub struct Emit {
    pub bytes: Seq<u8>,
    pub label_too_long: bool,
}

impl Emit {
    /// The encoder that writes `bytes` and cannot fail for a label.
    pub open spec fn of(bytes: Seq<u8>) -> Emit {
        Emit { bytes, label_too_long: false }
    }

    /// The encoder that has nothing to write.
    pub open spec fn nothing() -> Emit {
        Emit::of(Seq::empty())
    }

    /// The encoder that writes nothing, because the first label it meets is too long.
    pub open spec fn refused() -> Emit {
        Emit { bytes: Seq::empty(), label_too_long: true }
    }

    /// `self`, and after it `next` unless `self` stopped at a label.
    pub open spec fn followed_by(self, next: Emit) -> Emit {
        if self.label_too_long {
            self
        } else {
            Emit { bytes: self.bytes + next.bytes, label_too_long: next.label_too_long }
        }
    }
}

/// What the encoders `parts` lay down, one after the other.
pub open spec fn emit_all(parts: Seq<Emit>) -> Emit
    decreases parts.len(),
{
    if parts.len() == 0 {
        Emit::nothing()
    } else {
        emit_all(parts.drop_last()).followed_by(parts.last())
    }
}

/// Laying down `a + b` is laying down `a` and then `b`.
pub proof fn lemma_emit_all_concat(a: Seq<Emit>, b: Seq<Emit>)
    ensures
        emit_all(a + b) == emit_all(a).followed_by(emit_all(b)),
    decreases b.len(),
{
    if b.len() == 0 {
        assert(a + b =~= a);
        lemma_followed_by_nothing(emit_all(a));
    } else {
        lemma_emit_all_concat(a, b.drop_last());
        assert((a + b).drop_last() =~= a + b.drop_last());
        lemma_followed_by_assoc(emit_all(a), emit_all(b.drop_last()), b.last());
    }
}

/// What `parts` lay down, by the part at index `i`: the parts before it, that part, and
/// the parts behind it.
pub proof fn lemma_emit_all_at(parts: Seq<Emit>, i: int)
    requires
        0 <= i < parts.len(),
    ensures
        emit_all(parts.take(i + 1)) == emit_all(parts.take(i)).followed_by(parts[i]),
        emit_all(parts) == emit_all(parts.take(i)).followed_by(parts[i]).followed_by(
            emit_all(parts.skip(i + 1)),
        ),
{
    assert(parts.take(i + 1).drop_last() =~= parts.take(i));
    assert(parts.take(i + 1) + parts.skip(i + 1) =~= parts);
    lemma_emit_all_concat(parts.take(i + 1), parts.skip(i + 1));
}

/// Writing nothing before or after an encoder leaves it as it is.
pub proof fn lemma_followed_by_nothing(e: Emit)
    ensures
        Emit::nothing().followed_by(e) == e,
        e.followed_by(Emit::nothing()) == e,
{
    assert(Seq::<u8>::empty() + e.bytes =~= e.bytes);
    assert(e.bytes + Seq::<u8>::empty() =~= e.bytes);
}

/// Writing in sequence is associative.
pub proof fn lemma_followed_by_assoc(a: Emit, b: Emit, c: Emit)
    ensures
        a.followed_by(b).followed_by(c) == a.followed_by(b.followed_by(c)),
{
    assert((a.bytes + b.bytes) + c.bytes =~= a.bytes + (b.bytes + c.bytes));
}

/// Laying `a` and then `b` behind it is laying `a + b`.
pub proof fn lemma_splice_splice(buf: Seq<u8>, at: int, a: Seq<u8>, b: Seq<u8>)
    requires
        0 <= at,
    ensures
        splice(splice(buf, at, a), at + a.len(), b) == splice(buf, at, a + b),
{
    assert(splice(splice(buf, at, a), at + a.len(), b) =~= splice(buf, at, a + b));
}

/// A buffer that holds `a + b` holds `a`, and `b` behind it.
pub proof fn lemma_holds_split(buf: Seq<u8>, at: int, a: Seq<u8>, b: Seq<u8>)
    requires
        holds(buf, at, a + b),
    ensures
        holds(buf, at, a),
        holds(buf, at + a.len(), b),
{
    let whole = buf.subrange(at, at + (a + b).len());
    assert(buf.subrange(at, at + a.len()) =~= whole.subrange(0, a.len() as int));
    assert((a + b).subrange(0, a.len() as int) =~= a);
    assert(buf.subrange(at + a.len(), at + a.len() + b.len()) =~= whole.subrange(
        a.len() as int,
        (a + b).len() as int,
    ));
    assert((a + b).subrange(a.len() as int, (a + b).len() as int) =~= b);
}

/// A buffer that holds `data` has the bytes of `data` at their places.
pub proof fn lemma_holds_at(buf: Seq<u8>, at: int, data: Seq<u8>, i: int)
    requires
        holds(buf, at, data),
        0 <= i < data.len(),
    ensures
        buf[at + i] == data[i],
{
    assert(buf.subrange(at, at + data.len())[i] == buf[at + i]);
}

/// After `data` was laid over a buffer, with room for all of it, the buffer holds `data`.
pub proof fn lemma_splice_holds(buf: Seq<u8>, at: int, data: Seq<u8>)
    requires
        0 <= at,
        at + data.len() <= buf.len(),
    ensures
        holds(splice(buf, at, data), at, data),
{
    assert(splice(buf, at, data).subrange(at, at + data.len()) =~= data);
}

/// A buffer that holds the bytes of a 16-bit integer decodes to it.
pub proof fn lemma_holds_u16(buf: Seq<u8>, at: int, v: u16)
    requires
        holds(buf, at, be16(v)),
    ensures
        u16_at(buf, at) == v,
{
    lemma_holds_at(buf, at, be16(v), 0);
    lemma_holds_at(buf, at, be16(v), 1);
}

/// A buffer that holds the bytes of a 32-bit integer decodes to it.
pub proof fn lemma_holds_u32(buf: Seq<u8>, at: int, v: u32)
    requires
        holds(buf, at, be32(v)),
    ensures
        u32_at(buf, at) == v,
{
    lemma_holds_at(buf, at, be32(v), 0);
    lemma_holds_at(buf, at, be32(v), 1);
    lemma_holds_at(buf, at, be32(v), 2);
    lemma_holds_at(buf, at, be32(v), 3);
}

/// The bytes of `values` from the index `from` on.
pub open spec fn be16s_from(values: Seq<u16>, from: int) -> Seq<u8>
    decreases values.len() - from,
{
    if from < 0 || from >= values.len() {
        Seq::empty()
    } else {
        be16(values[from]) + be16s_from(values, from + 1)
    }
}

/// The bytes of `values` are those of its first `from` integers and then those of the rest.
pub proof fn lemma_be16s_from(values: Seq<u16>, from: int)
    requires
        0 <= from <= values.len(),
    ensures
        be16s(values) == be16s(values.take(from)) + be16s_from(values, from),
    decreases values.len() - from,
{
    if from == values.len() {
        assert(values.take(from) =~= values);
        assert(be16s(values) + Seq::<u8>::empty() =~= be16s(values));
    } else {
        lemma_be16s_from(values, from + 1);
        assert(values.take(from + 1).drop_last() =~= values.take(from));
        assert((be16s(values.take(from)) + be16(values[from])) + be16s_from(values, from + 1)
            =~= be16s(values.take(from)) + (be16(values[from]) + be16s_from(values, from + 1)));
    }
}

/// Every 16-bit integer takes two bytes.
pub proof fn lemma_be16s_len(values: Seq<u16>)
    ensures
        be16s(values).len() == 2 * values.len(),
    decreases values.len(),
{
    if values.len() > 0 {
        lemma_be16s_len(values.drop_last());
    }
}

/// A buffer that holds the bytes of `values` decodes to each of them at its place.
pub proof fn lemma_holds_u16s(buf: Seq<u8>, at: int, values: Seq<u16>)
    requires
        holds(buf, at, be16s(values)),
    ensures
        forall|i: int| 0 <= i < values.len() ==> u16_at(buf, at + 2 * i) == values[i],
    decreases values.len(),
{
    if values.len() > 0 {
        let front = values.drop_last();
        lemma_be16s_len(front);
        lemma_holds_split(buf, at, be16s(front), be16(values.last()));
        lemma_holds_u16s(buf, at, front);
        lemma_holds_u16(buf, at + 2 * front.len(), values.last());
        assert forall|i: int| 0 <= i < values.len() implies u16_at(buf, at + 2 * i)
            == values[i] by {
            if i < front.len() {
                assert(front[i] == values[i]);
            }
        }
    }
}

} // verus!
