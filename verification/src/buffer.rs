//! The byte cursor: a buffer of 512 bytes with a position, and bounds-checked reads and
//! writes of big-endian integers and of domain names.

use vstd::prelude::*;
use vstd::string::StringExecFns;
use vstd::utf8::encode_utf8;
use crate::DnsError;
use crate::name::{
    label_end, labels_emit, labels_from, lemma_after_after, lemma_after_nothing,
    lemma_labels_emit_step, name_emit, name_text, parse_name, walk_name, Walk, DOT, MAX_JUMPS,
    MAX_LABEL_LENGTH,
};
use crate::text::read_label;
use crate::wire::{
    be16, be16s, be16s_from, be32, holds, lemma_be16s_from, lemma_splice_holds,
    lemma_splice_splice, splice, u16_at, u32_at, Emit,
};

verus! {

/// A message buffer and the cursor into it.
///
/// The cursor may stand anywhere, also past the end: `seek` and `step` do not look at the
/// bounds. Every access does, and fails at or past byte 512.
pub struct PacketBuffer {
    pub buffer: [u8; 512],
    pub position: usize,
}

impl PacketBuffer {
    /// Whether a write of `n` bytes at the cursor stays inside the buffer. A write of
    /// nothing touches no byte and so has room wherever the cursor stands.
    pub open spec fn has_room(self, n: int) -> bool {
        n == 0 || self.position + n <= 512
    }

    /// Where the cursor stands after an attempt to write `n` bytes: a write that runs out
    /// of room leaves it at the end of the buffer.
    pub open spec fn cursor_after(self, n: int) -> int {
        if self.position >= 512 {
            self.position as int
        } else if self.position + n <= 512 {
            self.position + n
        } else {
            512
        }
    }

    /// `self` is what an attempt to write `data` at the cursor makes of `before`.
    pub open spec fn is_write_of(self, before: PacketBuffer, data: Seq<u8>) -> bool {
        &&& self.buffer@ == splice(before.buffer@, before.position as int, data)
        &&& self.position == before.cursor_after(data.len() as int)
    }

    /// `self` is `before` but for bytes between the cursor of `before` and the cursor of
    /// `self`, which has not moved back: what a writer, however it ends, makes of the
    /// buffer.
    #[verifier::opaque]
    pub open spec fn is_written_from(self, before: PacketBuffer) -> bool {
        &&& before.position <= self.position
        &&& forall|i: int|
            0 <= i < 512 && !(before.position <= i < self.position) ==> self.buffer@[i]
                == before.buffer@[i]
    }

    /// How an encoder ends that starts at the cursor: out of room, in front of a label that
    /// is too long, or well.
    pub open spec fn outcome(self, emit: Emit) -> crate::Result<()> {
        if !self.has_room(emit.bytes.len() as int) {
            Err(DnsError::BufferEnd)
        } else if emit.label_too_long {
            Err(DnsError::LabelExceedsMaxLengthSize)
        } else {
            Ok(())
        }
    }

    /// Whether a read of `n` bytes at the cursor stays inside the buffer.
    pub open spec fn can_read(self, n: int) -> bool {
        self.position + n <= 512
    }

    /// Where the cursor stands after a failed read of several bytes: at the end of the
    /// buffer, unless it stood past it already.
    pub open spec fn cursor_at_end(self) -> int {
        if self.position >= 512 {
            self.position as int
        } else {
            512
        }
    }

    /// A buffer of zeros with the cursor at its start.
    pub fn new() -> (b: PacketBuffer)
        ensures
            b.position == 0,
            b.buffer@ == Seq::new(512, |i: int| 0u8),
    {
        let b = PacketBuffer { buffer: [0;512], position: 0 };
        assert(b.buffer@ =~= Seq::new(512, |i: int| 0u8));
        b
    }

    /// The cursor.
    pub fn position(&self) -> (p: usize)
        ensures
            p == self.position,
    {
        self.position
    }

    /// Moves the cursor forward by `steps`, without looking at the bounds.
    pub fn step(&mut self, steps: usize) -> (r: crate::Result<()>)
        requires
            old(self).position + steps <= usize::MAX,
        ensures
            r is Ok,
            final(self).position == old(self).position + steps,
            final(self).buffer == old(self).buffer,
    {
        self.position += steps;
        Ok(())
    }

    /// Sets the cursor to `pos`, without looking at the bounds.
    pub fn seek(&mut self, pos: usize) -> (r: crate::Result<()>)
        ensures
            r is Ok,
            final(self).position == pos,
            final(self).buffer == old(self).buffer,
    {
        self.position = pos;
        Ok(())
    }

    /// Reads the byte at the cursor and moves the cursor past it.
    pub fn read(&mut self) -> (r: crate::Result<u8>)
        ensures
            final(self).buffer == old(self).buffer,
            match r {
                Ok(b) => old(self).can_read(1) && b == old(self).buffer@[old(self).position as int]
                    && final(self).position == old(self).position + 1,
                Err(e) => !old(self).can_read(1) && e == DnsError::BufferEnd
                    && final(self).position == old(self).position,
            },
    {
        if self.position >= 512 {
            return Err(DnsError::BufferEnd);
        }
        let response = self.buffer[self.position];
        self.position += 1;
        Ok(response)
    }

    /// The byte at `position`. The cursor stays.
    pub fn get(&mut self, position: usize) -> (r: crate::Result<u8>)
        ensures
            *final(self) == *old(self),
            match r {
                Ok(b) => position < 512 && b == old(self).buffer@[position as int],
                Err(e) => position >= 512 && e == DnsError::BufferEnd,
            },
    {
        if position >= 512 {
            return Err(DnsError::BufferEnd);
        }
        Ok(self.buffer[position])
    }

    /// The `length` bytes from `start` on. The cursor stays. A range is refused already
    /// when it ends at the last byte of the buffer: `start + length` has to stay below 512.
    pub fn get_range(&mut self, start: usize, length: usize) -> (r: crate::Result<&[u8]>)
        ensures
            *final(self) == *old(self),
            match r {
                Ok(bytes) => start + length < 512 && bytes@ == old(self).buffer@.subrange(
                    start as int,
                    start + length,
                ),
                Err(e) => start + length >= 512 && e == DnsError::BufferEnd,
            },
    {
        if start >= 512 || length >= 512 - start {
            return Err(DnsError::BufferEnd);
        }
        Ok(vstd::slice::slice_subrange(self.buffer.as_slice(), start, start + length))
    }

    /// Reads the big-endian 16-bit integer at the cursor.
    pub fn read_u16(&mut self) -> (r: crate::Result<u16>)
        ensures
            final(self).buffer == old(self).buffer,
            match r {
                Ok(v) => old(self).can_read(2) && v == u16_at(
                    old(self).buffer@,
                    old(self).position as int,
                ) && final(self).position == old(self).position + 2,
                Err(e) => !old(self).can_read(2) && e == DnsError::BufferEnd
                    && final(self).position == old(self).cursor_at_end(),
            },
    {
        let hi = self.read()?;
        let lo = self.read()?;
        let result = ((hi as u16) << 8) | (lo as u16);
        assert(((hi as u16) << 8) | (lo as u16) == (hi as u16) * 0x100 + (lo as u16))
            by (bit_vector);
        Ok(result)
    }

    /// Reads the big-endian 32-bit integer at the cursor.
    pub fn read_u32(&mut self) -> (r: crate::Result<u32>)
        ensures
            final(self).buffer == old(self).buffer,
            match r {
                Ok(v) => old(self).can_read(4) && v == u32_at(
                    old(self).buffer@,
                    old(self).position as int,
                ) && final(self).position == old(self).position + 4,
                Err(e) => !old(self).can_read(4) && e == DnsError::BufferEnd
                    && final(self).position == old(self).cursor_at_end(),
            },
    {
        let b0 = self.read()?;
        let b1 = self.read()?;
        let b2 = self.read()?;
        let b3 = self.read()?;
        let res = ((b0 as u32) << 24) | ((b1 as u32) << 16) | ((b2 as u32) << 8) | ((b3 as u32)
            << 0);
        assert(((b0 as u32) << 24) | ((b1 as u32) << 16) | ((b2 as u32) << 8) | ((b3 as u32) << 0)
            == (b0 as u32) * 0x100_0000 + (b1 as u32) * 0x1_0000 + (b2 as u32) * 0x100 + (
        b3 as u32)) by (bit_vector);
        Ok(res)
    }

    /// Writes `value` at the cursor and moves the cursor past it.
    pub fn write(&mut self, value: u8) -> (r: crate::Result<()>)
        ensures
            r == old(self).outcome(Emit::of(seq![value])),
            final(self).is_write_of(*old(self), seq![value]),
    {
        if self.position >= 512 {
            assert(self.buffer@ =~= splice(self.buffer@, self.position as int, seq![value]));
            return Err(DnsError::BufferEnd);
        }
        self.buffer[self.position] = value;
        self.position += 1;
        assert(self.buffer@ =~= splice(
            old(self).buffer@,
            old(self).position as int,
            seq![value],
        ));
        Ok(())
    }

    /// Writes `value` at the cursor and moves the cursor past it.
    pub fn write_u8(&mut self, value: u8) -> (r: crate::Result<()>)
        ensures
            r == old(self).outcome(Emit::of(seq![value])),
            final(self).is_write_of(*old(self), seq![value]),
    {
        self.write(value)?;
        Ok(())
    }

    /// Writes `value` at the cursor, most significant byte first. When the buffer ends
    /// before the last byte, the bytes that had room are written.
    pub fn write_u16(&mut self, value: u16) -> (r: crate::Result<()>)
        ensures
            r == old(self).outcome(Emit::of(be16(value))),
            final(self).is_write_of(*old(self), be16(value)),
    {
        let hi = (value >> 8) as u8;
        let lo = (value & 0xFF) as u8;
        assert((value >> 8) as u8 == (value / 0x100) as u8 && (value & 0xFF) as u8 == (value
            % 0x100) as u8) by (bit_vector);
        let r1 = self.write(hi);
        let r2 = if r1.is_ok() { self.write(lo) } else { r1 };
        assert(self.buffer@ =~= splice(old(self).buffer@, old(self).position as int, be16(value)));
        r2
    }

    /// Writes `value` at the cursor, most significant byte first. When the buffer ends
    /// before the last byte, the bytes that had room are written.
    pub fn write_u32(&mut self, value: u32) -> (r: crate::Result<()>)
        ensures
            r == old(self).outcome(Emit::of(be32(value))),
            final(self).is_write_of(*old(self), be32(value)),
    {
        let b0 = ((value >> 24) & 0xFF) as u8;
        let b1 = ((value >> 16) & 0xFF) as u8;
        let b2 = ((value >> 8) & 0xFF) as u8;
        let b3 = ((value >> 0) & 0xFF) as u8;
        assert(((value >> 24) & 0xFF) as u8 == (value / 0x100_0000) as u8 && ((value >> 16)
            & 0xFF) as u8 == (value / 0x1_0000 % 0x100) as u8 && ((value >> 8) & 0xFF) as u8 == (
        value / 0x100 % 0x100) as u8 && ((value >> 0) & 0xFF) as u8 == (value % 0x100) as u8)
            by (bit_vector);
        let r0 = self.write(b0);
        let r1 = if r0.is_ok() { self.write(b1) } else { r0 };
        let r2 = if r1.is_ok() { self.write(b2) } else { r1 };
        let r3 = if r2.is_ok() { self.write(b3) } else { r2 };
        assert(self.buffer@ =~= splice(old(self).buffer@, old(self).position as int, be32(value)));
        r3
    }

    /// Overwrites the two bytes at `pos` and `pos + 1` with `value`, most significant byte
    /// first. The cursor stays. Fails, and writes nothing, unless both bytes lie inside the
    /// buffer.
    pub fn set_u16(&mut self, pos: usize, value: u16) -> (r: crate::Result<()>)
        ensures
            final(self).position == old(self).position,
            match r {
                Ok(()) => pos + 2 <= 512 && final(self).buffer@ == splice(
                    old(self).buffer@,
                    pos as int,
                    be16(value),
                ),
                Err(e) => pos + 2 > 512 && e == DnsError::BufferEnd && final(self).buffer == old(
                    self,
                ).buffer,
            },
    {
        if pos >= 511 {
            return Err(DnsError::BufferEnd);
        }
        assert((value >> 8) as u8 == (value / 0x100) as u8 && (value & 0xFF) as u8 == (value
            % 0x100) as u8) by (bit_vector);
        self.buffer[pos] = (value >> 8) as u8;
        self.buffer[pos + 1] = (value & 0xFF) as u8;
        assert(self.buffer@ =~= splice(old(self).buffer@, pos as int, be16(value)));
        Ok(())
    }

    /// Writes `bytes` at the cursor, one after the other, as far as there is room.
    pub(crate) fn write_all(&mut self, bytes: &[u8]) -> (r: crate::Result<()>)
        ensures
            r == old(self).outcome(Emit::of(bytes@)),
            final(self).is_write_of(*old(self), bytes@),
    {
        let n = bytes.len();
        let mut i: usize = 0;
        assert(bytes@.take(0) =~= Seq::<u8>::empty());
        assert(self.buffer@ =~= splice(self.buffer@, self.position as int, Seq::<u8>::empty()));
        while i < n
            invariant
                i <= n,
                n == bytes@.len(),
                old(self).outcome(Emit::of(bytes@.take(i as int))) is Ok,
                self.is_write_of(*old(self), bytes@.take(i as int)),
            decreases n - i,
        {
            let ghost mid = *self;
            let ghost done = Emit::of(bytes@.take(i as int));
            let ghost step = Emit::of(seq![bytes@[i as int]]);
            let ghost rest = Emit::of(bytes@.skip(i + 1));
            let r = self.write_u8(bytes[i]);
            proof {
                lemma_write_step(*old(self), mid, *self, done, step, rest);
                assert(done.followed_by(step).bytes =~= bytes@.take(i + 1));
                assert(done.followed_by(step).followed_by(rest).bytes =~= bytes@);
            }
            if r.is_err() {
                return r;
            }
            i += 1;
        }
        assert(bytes@.take(n as int) =~= bytes@);
        Ok(())
    }

    /// Writes `values` at the cursor, one after the other and each most significant byte
    /// first, as far as there is room.
    pub(crate) fn write_all_u16(&mut self, values: &[u16]) -> (r: crate::Result<()>)
        ensures
            r == old(self).outcome(Emit::of(be16s(values@))),
            final(self).is_write_of(*old(self), be16s(values@)),
    {
        let n = values.len();
        let mut i: usize = 0;
        proof {
            lemma_write_nothing(*self);
            assert(values@.take(0) =~= Seq::<u16>::empty());
        }
        while i < n
            invariant
                i <= n,
                n == values@.len(),
                old(self).outcome(Emit::of(be16s(values@.take(i as int)))) is Ok,
                self.is_write_of(*old(self), be16s(values@.take(i as int))),
            decreases n - i,
        {
            let ghost mid = *self;
            let ghost done = Emit::of(be16s(values@.take(i as int)));
            let ghost step = Emit::of(be16(values@[i as int]));
            let ghost rest = Emit::of(be16s_from(values@, i + 1));
            let r = self.write_u16(values[i]);
            proof {
                lemma_write_step(*old(self), mid, *self, done, step, rest);
                assert(values@.take(i + 1).drop_last() =~= values@.take(i as int));
                lemma_be16s_from(values@, i as int);
                lemma_be16s_from(values@, i + 1);
                assert((be16s(values@.take(i as int)) + be16(values@[i as int])) + be16s_from(
                    values@,
                    i + 1,
                ) =~= be16s(values@.take(i as int)) + (be16(values@[i as int]) + be16s_from(
                    values@,
                    i + 1,
                )));
            }
            if r.is_err() {
                return r;
            }
            i += 1;
        }
        assert(values@.take(n as int) =~= values@);
        Ok(())
    }

    /// Reads the name at the cursor and appends its text to `outstr`: the labels in lower
    /// case, with a dot between two of them. Pointers are followed, at most five of them.
    /// Afterwards the cursor stands behind the name as it is written at the cursor: behind
    /// its first pointer, or behind its zero byte where it has no pointer, and so inside
    /// the buffer or at its end.
    ///
    /// Where the reading fails, the text of the labels that were read stays appended, and
    /// the cursor stays behind the first pointer, if one was met.
    pub fn read_qname(&mut self, outstr: &mut String) -> (r: crate::Result<()>)
        ensures
            final(self).buffer == old(self).buffer,
            ({
                let walk = walk_name(old(self).buffer@, old(self).position as int, 0);
                &&& r == walk.result()
                &&& final(outstr)@ == old(outstr)@ + walk.text()
                &&& final(self).position == walk.cursor(old(self).position as int)
            }),
            final(self).position == parse_name(
                old(self).buffer@,
                old(self).position as int,
            ).cursor,
            match r {
                Ok(()) => parse_name(old(self).buffer@, old(self).position as int).result
                    matches Ok(text) && final(outstr)@ == old(outstr)@ + text
                    && final(self).position <= 512,
                Err(e) => parse_name(old(self).buffer@, old(self).position as int).result
                    == Err::<Seq<char>, DnsError>(e),
            },
    {
        let mut position = self.position();
        let mut jumped = false;

        let mut delimiter = "";
        let max_jumps = MAX_JUMPS;
        let mut jumps_performed: u32 = 0;
        let ghost buf = self.buffer@;
        let ghost start = self.position as int;
        let ghost whole = walk_name(buf, start, 0);
        let ghost mut labels: Seq<Seq<u8>> = Seq::empty();
        proof {
            reveal_strlit("");
            assert(outstr@ =~= old(outstr)@ + name_text(labels));
            assert(delimiter@ =~= Seq::<char>::empty());
            lemma_after_nothing(whole);
        }
        loop
            invariant_except_break
                whole == walk_name(buf, position as int, jumps_performed as int).after(
                    labels,
                    if jumped {
                        Some(self.position as int)
                    } else {
                        None
                    },
                ),
            invariant
                self.buffer@ == buf,
                self.buffer == old(self).buffer,
                start == old(self).position,
                whole == walk_name(buf, start, 0),
                max_jumps == MAX_JUMPS,
                jumps_performed <= 6,
                jumped == (jumps_performed > 0),
                !jumped ==> self.position == start,
                jumped ==> self.position <= 512,
                delimiter@ == if labels.len() == 0 {
                    Seq::<char>::empty()
                } else {
                    seq!['.']
                },
                outstr@ == old(outstr)@ + name_text(labels),
            ensures
                position <= 512,
                whole == (Walk {
                    labels,
                    moved: if jumped {
                        Some(self.position as int)
                    } else {
                        None
                    },
                    end: Ok(position as int),
                    in_label: false,
                }),
            decreases 6 - jumps_performed, 512 - position,
        {
            proof {
                assert(labels + Seq::<Seq<u8>>::empty() =~= labels);
            }
            // pointers that form a cycle end here
            if jumps_performed > max_jumps {
                return Err(DnsError::MaxJumps(max_jumps));
            }
            let length = self.get(position)?;

            // two high bits set: a pointer, whose other fourteen bits are the offset at
            // which the name goes on
            assert(((length & 0xC0) == 0xC0) == (length >= 0xC0)) by (bit_vector);
            if (length & 0xC0) == 0xC0 {
                // only the first pointer moves the cursor of the buffer
                if !jumped {
                    self.seek(position + 2)?;
                }
                let b2 = self.get(position + 1)? as u16;
                let offset = (((length as u16) ^ 0xC0) << 8) | b2;
                assert(length >= 0xC0 && b2 < 0x100 ==> (((length as u16) ^ 0xC0) << 8) | b2 == (
                length - 0xC0) * 0x100 + b2) by (bit_vector);
                proof {
                    lemma_after_after(
                        walk_name(buf, offset as int, jumps_performed + 1),
                        Seq::empty(),
                        Some(position + 2),
                        labels,
                        if jumped {
                            Some(self.position as int)
                        } else {
                            None
                        },
                    );
                }
                position = offset as usize;
                jumped = true;
                jumps_performed += 1;
                continue ;
            }
            position += 1;

            // a zero byte ends the name
            if length == 0 {
                break ;
            }
            outstr.append(delimiter);
            proof {
                assert(outstr@ =~= old(outstr)@ + if labels.len() == 0 {
                    name_text(labels)
                } else {
                    name_text(labels) + seq!['.']
                });
            }

            let str_buffer = self.get_range(position, length as usize)?;
            let label = read_label(str_buffer);
            outstr.append(label.as_str());
            proof {
                lemma_after_after(
                    walk_name(buf, position + length, jumps_performed as int),
                    seq![str_buffer@],
                    None,
                    labels,
                    if jumped {
                        Some(self.position as int)
                    } else {
                        None
                    },
                );
                assert(labels + seq![str_buffer@] =~= labels.push(str_buffer@));
                assert(labels.push(str_buffer@).drop_last() =~= labels);
                assert(outstr@ =~= old(outstr)@ + name_text(labels.push(str_buffer@)));
                labels = labels.push(str_buffer@);
            }
            delimiter = ".";
            proof {
                reveal_strlit(".");
                assert(delimiter@ =~= seq!['.']);
            }

            position += length as usize;
        }

        if !jumped {
            self.seek(position)?;
        }
        Ok(())
    }

    /// Writes `qname` at the cursor as a name: each of its labels, the pieces between its
    /// dots, behind a byte with its length, and a zero byte at the end. No pointer is
    /// written. Fails in front of the first label of more than 52 bytes, or where the
    /// buffer ends; what was written until then stays.
    pub fn write_qname(&mut self, qname: &str) -> (r: crate::Result<()>)
        ensures
            r == old(self).outcome(name_emit(encode_utf8(qname@))),
            final(self).is_write_of(*old(self), name_emit(encode_utf8(qname@)).bytes),
    {
        let bytes = qname.as_bytes();
        let n = bytes.len();
        let mut start: usize = 0;
        let ghost all = name_emit(bytes@);
        let ghost mut done = Emit::nothing();
        proof {
            assert(self.buffer@ =~= splice(self.buffer@, self.position as int, done.bytes));
            assert(done.followed_by(all).bytes =~= all.bytes);
        }
        loop
            invariant_except_break
                all == done.followed_by(labels_emit(labels_from(bytes@, start as int))),
            invariant
                n == bytes@.len(),
                start <= n,
                bytes@ == encode_utf8(qname@),
                all == name_emit(bytes@),
                old(self).outcome(done) is Ok,
                self.is_write_of(*old(self), done.bytes),
            ensures
                all == done.followed_by(Emit::of(seq![0u8])),
            decreases n - start,
        {
            let mut end = start;
            while end < n && bytes[end] != DOT
                invariant
                    start <= end <= n,
                    n == bytes@.len(),
                    label_end(bytes@, end as int) == label_end(bytes@, start as int),
                decreases n - end,
            {
                end += 1;
            }
            let length = end - start;
            let ghost label = bytes@.subrange(start as int, end as int);
            let ghost rest = if end >= n {
                Emit::of(seq![0u8])
            } else {
                labels_emit(labels_from(bytes@, end + 1))
            };
            proof {
                lemma_labels_emit_step(bytes@, start as int);
            }
            if length > MAX_LABEL_LENGTH {
                assert(all.bytes =~= done.bytes);
                return Err(DnsError::LabelExceedsMaxLengthSize);
            }
            let ghost size = Emit::of(seq![length as u8]);
            let ghost body = Emit::of(label);
            proof {
                assert(Emit::of(seq![length as u8] + label) == size.followed_by(body));
                crate::wire::lemma_followed_by_assoc(size, body, rest);
            }
            let ghost mid = *self;
            let r = self.write_u8(length as u8);
            proof {
                lemma_write_step(*old(self), mid, *self, done, size, body.followed_by(rest));
                done = done.followed_by(size);
            }
            if r.is_err() {
                return r;
            }
            let ghost mid = *self;
            let r = self.write_all(vstd::slice::slice_subrange(bytes, start, end));
            proof {
                lemma_write_step(*old(self), mid, *self, done, body, rest);
                done = done.followed_by(body);
            }
            if r.is_err() {
                return r;
            }
            if end == n {
                break ;
            }
            start = end + 1;
        }
        let ghost mid = *self;
        let r = self.write_u8(0);
        proof {
            lemma_write_step(*old(self), mid, *self, done, Emit::of(seq![0u8]), Emit::nothing());
            assert(Emit::of(seq![0u8]).followed_by(Emit::nothing()).bytes =~= seq![0u8]);
        }
        r
    }
}

/// A writer that has not started yet has laid down nothing, and well.
pub proof fn lemma_write_nothing(b: PacketBuffer)
    ensures
        b.is_write_of(b, Seq::empty()),
        b.outcome(Emit::nothing()) is Ok,
{
    assert(b.buffer@ =~= splice(b.buffer@, b.position as int, Seq::empty()));
}

/// An attempt to write changes no byte but between the cursor as it stood and the cursor
/// as it stands.
pub proof fn lemma_write_is_written_from(before: PacketBuffer, now: PacketBuffer, data: Seq<u8>)
    requires
        now.is_write_of(before, data),
    ensures
        now.is_written_from(before),
{
    reveal(PacketBuffer::is_written_from);
}

/// Two writers in a row change no byte but between the cursor as it stood before the
/// first and the cursor as it stands behind the second.
pub proof fn lemma_is_written_from_twice(before: PacketBuffer, mid: PacketBuffer, now: PacketBuffer)
    requires
        mid.is_written_from(before),
        now.is_written_from(mid),
    ensures
        now.is_written_from(before),
{
    reveal(PacketBuffer::is_written_from);
}

/// Whatever a writer makes of `mid`, which a writer has made of `before`, a writer has
/// made of `before`.
pub proof fn lemma_is_written_from_onwards(before: PacketBuffer, mid: PacketBuffer)
    requires
        mid.is_written_from(before),
    ensures
        forall|now: PacketBuffer| #[trigger]
            now.is_written_from(mid) ==> now.is_written_from(before),
        forall|now: PacketBuffer, data: Seq<u8>| #[trigger]
            now.is_write_of(mid, data) ==> now.is_written_from(before),
{
    assert forall|now: PacketBuffer| #[trigger]
        now.is_written_from(mid) implies now.is_written_from(before) by {
        lemma_is_written_from_twice(before, mid, now);
    }
    assert forall|now: PacketBuffer, data: Seq<u8>| #[trigger]
        now.is_write_of(mid, data) implies now.is_written_from(before) by {
        lemma_write_is_written_from(mid, now, data);
        lemma_is_written_from_twice(before, mid, now);
    }
}

/// A buffer is what a writer that has not started has made of it.
pub proof fn lemma_is_written_from_itself(b: PacketBuffer)
    ensures
        b.is_written_from(b),
{
    reveal(PacketBuffer::is_written_from);
}

/// After a write that had room, the buffer holds what was written where the cursor stood.
pub proof fn lemma_written_holds(before: PacketBuffer, now: PacketBuffer, data: Seq<u8>)
    requires
        now.is_write_of(before, data),
        before.position + data.len() <= 512,
    ensures
        holds(now.buffer@, before.position as int, data),
        now.position == before.position + data.len(),
{
    lemma_splice_holds(before.buffer@, before.position as int, data);
}

/// How a writer ends that has laid down `done` and goes on with `step` and then `rest`,
/// and where it leaves the cursor, told from the step: where the step fails, the writer as
/// a whole has ended in that way and there.
pub proof fn lemma_outcome_step(
    before: PacketBuffer,
    mid: PacketBuffer,
    done: Emit,
    step: Emit,
    rest: Emit,
)
    requires
        before.outcome(done) is Ok,
        mid.position == before.cursor_after(done.bytes.len() as int),
    ensures
        done.followed_by(step.followed_by(rest)) == done.followed_by(step).followed_by(rest),
        before.outcome(done.followed_by(step)) == mid.outcome(step),
        before.cursor_after(done.followed_by(step).bytes.len() as int) == mid.cursor_after(
            step.bytes.len() as int,
        ),
        mid.outcome(step) is Err ==> before.outcome(done.followed_by(step).followed_by(rest))
            == mid.outcome(step) && before.cursor_after(
            done.followed_by(step).followed_by(rest).bytes.len() as int,
        ) == mid.cursor_after(step.bytes.len() as int),
{
    crate::wire::lemma_followed_by_assoc(done, step, rest);
}

/// One step of a writer that has laid down `done` and goes on with `step` and then `rest`:
/// where the step succeeds, `done` and `step` are laid down; where it fails, the writer as
/// a whole has ended in that way.
pub proof fn lemma_write_step(
    before: PacketBuffer,
    mid: PacketBuffer,
    now: PacketBuffer,
    done: Emit,
    step: Emit,
    rest: Emit,
)
    requires
        before.outcome(done) is Ok,
        mid.is_write_of(before, done.bytes),
        now.is_write_of(mid, step.bytes),
    ensures
        done.followed_by(step.followed_by(rest)) == done.followed_by(step).followed_by(rest),
        now.is_write_of(before, done.followed_by(step).bytes),
        before.outcome(done.followed_by(step)) == mid.outcome(step),
        mid.outcome(step) is Err ==> before.outcome(done.followed_by(step).followed_by(rest))
            == mid.outcome(step) && now.is_write_of(
            before,
            done.followed_by(step).followed_by(rest).bytes,
        ),
{
    crate::wire::lemma_followed_by_assoc(done, step, rest);
    let at = before.position as int;
    let both = done.followed_by(step);
    if before.position < 512 {
        lemma_splice_splice(before.buffer@, at, done.bytes, step.bytes);
    } else {
        assert(now.buffer@ =~= splice(before.buffer@, at, both.bytes));
    }
    if mid.outcome(step) is Err {
        let all = both.followed_by(rest);
        assert(now.buffer@ =~= splice(before.buffer@, at, all.bytes));
    }
}

} // verus!
