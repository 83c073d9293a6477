//! The message model: header, question, resource record and packet, each of which reads
//! itself from a buffer and writes itself to one.

use vstd::prelude::*;
use vstd::utf8::encode_utf8;
use crate::buffer::{
    lemma_is_written_from_itself, lemma_is_written_from_onwards, lemma_is_written_from_twice,
    lemma_outcome_step, lemma_write_is_written_from, lemma_write_nothing, lemma_write_step,
    PacketBuffer,
};
use crate::laws::lemma_parsed_counts;
use crate::name::{name_emit, parse_name, walk_name};
use crate::wire::{
    be16, be16s, be32, emit_all, end_from, lemma_be16s_len, lemma_emit_all_at,
    lemma_followed_by_nothing, splice, u16_at, u32_at, Emit, Parsed,
};
use crate::DnsError;

verus! {

/// The response code of a message.
#[derive(Copy, Clone, Debug, PartialEq, Eq, Structural)]
pub enum ResultCode {
    NOERROR,
    FORMERR,
    SERVFAIL,
    NXDOMAIN,
    NOTIMP,
    REFUSED,
}

impl ResultCode {
    /// The code with the number `num`; a number that stands for no code counts as
    /// `NOERROR`.
    pub open spec fn of_number(num: u8) -> ResultCode {
        if num == 1 {
            ResultCode::FORMERR
        } else if num == 2 {
            ResultCode::SERVFAIL
        } else if num == 3 {
            ResultCode::NXDOMAIN
        } else if num == 4 {
            ResultCode::NOTIMP
        } else if num == 5 {
            ResultCode::REFUSED
        } else {
            ResultCode::NOERROR
        }
    }

    /// The number of the code on the wire.
    pub open spec fn number(self) -> u8 {
        match self {
            ResultCode::NOERROR => 0,
            ResultCode::FORMERR => 1,
            ResultCode::SERVFAIL => 2,
            ResultCode::NXDOMAIN => 3,
            ResultCode::NOTIMP => 4,
            ResultCode::REFUSED => 5,
        }
    }

    /// The code with the number `num`; a number that stands for no code counts as
    /// `NOERROR`.
    pub fn from_number(num: u8) -> (code: ResultCode)
        ensures
            code == ResultCode::of_number(num),
    {
        match num {
            1 => ResultCode::FORMERR,
            2 => ResultCode::SERVFAIL,
            3 => ResultCode::NXDOMAIN,
            4 => ResultCode::NOTIMP,
            5 => ResultCode::REFUSED,
            _ => ResultCode::NOERROR,
        }
    }

    /// The number of the code on the wire.
    pub fn to_number(&self) -> (num: u8)
        ensures
            num == self.number(),
    {
        match *self {
            ResultCode::NOERROR => 0,
            ResultCode::FORMERR => 1,
            ResultCode::SERVFAIL => 2,
            ResultCode::NXDOMAIN => 3,
            ResultCode::NOTIMP => 4,
            ResultCode::REFUSED => 5,
        }
    }
}

/// One flag as a byte: 1 where it is set.
pub open spec fn bit(flag: bool) -> u8 {
    if flag {
        1
    } else {
        0
    }
}

/// The twelve bytes in front of every message.
#[derive(Copy, Clone, Debug, PartialEq, Eq)]
pub struct DnsHeader {
    pub id: u16,
    pub recursion_desired: bool,
    pub truncated_message: bool,
    pub authoritative_answer: bool,
    /// Four bits on the wire.
    pub opcode: u8,
    pub response: bool,
    pub rescode: ResultCode,
    pub checking_disabled: bool,
    pub authed_data: bool,
    pub z: bool,
    pub recursion_available: bool,
    pub questions: u16,
    pub answers: u16,
    pub authoritative_entries: u16,
    pub resource_entries: u16,
}

impl DnsHeader {
    /// The first byte of the flags: from the lowest bit up, recursion desired, truncated,
    /// authoritative answer, four bits of opcode, and response. An opcode of 16 or more
    /// runs over into the response bit and beyond.
    pub open spec fn flags_high(self) -> u8 {
        bit(self.recursion_desired) | (bit(self.truncated_message) << 1) | (bit(
            self.authoritative_answer,
        ) << 2) | (self.opcode << 3) | (bit(self.response) << 7)
    }

    /// The second byte of the flags: from the lowest bit up, four bits of response code,
    /// checking disabled, authenticated data, the reserved bit, and recursion available.
    pub open spec fn flags_low(self) -> u8 {
        self.rescode.number() | (bit(self.checking_disabled) << 4) | (bit(self.authed_data) << 5)
            | (bit(self.z) << 6) | (bit(self.recursion_available) << 7)
    }

    /// The header on the wire: twelve bytes, each 16-bit integer most significant byte
    /// first.
    pub open spec fn wire(self) -> Seq<u8> {
        seq![
            (self.id / 0x100) as u8,
            (self.id % 0x100) as u8,
            self.flags_high(),
            self.flags_low(),
            (self.questions / 0x100) as u8,
            (self.questions % 0x100) as u8,
            (self.answers / 0x100) as u8,
            (self.answers % 0x100) as u8,
            (self.authoritative_entries / 0x100) as u8,
            (self.authoritative_entries % 0x100) as u8,
            (self.resource_entries / 0x100) as u8,
            (self.resource_entries % 0x100) as u8,
        ]
    }

    /// The header that the twelve bytes from `at` on stand for.
    pub open spec fn held_at(buf: Seq<u8>, at: int) -> DnsHeader {
        let a = buf[at + 2];
        let b = buf[at + 3];
        DnsHeader {
            id: u16_at(buf, at),
            recursion_desired: a & 0x01 != 0,
            truncated_message: a & 0x02 != 0,
            authoritative_answer: a & 0x04 != 0,
            opcode: (a >> 3) & 0x0F,
            response: a & 0x80 != 0,
            rescode: ResultCode::of_number(b & 0x0F),
            checking_disabled: b & 0x10 != 0,
            authed_data: b & 0x20 != 0,
            z: b & 0x40 != 0,
            recursion_available: b & 0x80 != 0,
            questions: u16_at(buf, at + 4),
            answers: u16_at(buf, at + 6),
            authoritative_entries: u16_at(buf, at + 8),
            resource_entries: u16_at(buf, at + 10),
        }
    }

    /// Reads a header at `at` in the message `buf`: the header, and where the cursor is
    /// left.
    pub open spec fn parse(buf: Seq<u8>, at: int) -> Parsed<DnsHeader> {
        if at + 12 <= 512 {
            Parsed::done(DnsHeader::held_at(buf, at), at + 12)
        } else {
            Parsed::failed(DnsError::BufferEnd, end_from(at))
        }
    }

    /// The header `self` with the fields of `held` that lie in the first `bytes` bytes of
    /// a header: the id in the first two, the flags in the first four, and a count in
    /// each two more.
    #[verifier::opaque]
    pub open spec fn with_first(self, held: DnsHeader, bytes: int) -> DnsHeader {
        let flags = bytes >= 4;
        DnsHeader {
            id: if bytes >= 2 {
                held.id
            } else {
                self.id
            },
            recursion_desired: if flags {
                held.recursion_desired
            } else {
                self.recursion_desired
            },
            truncated_message: if flags {
                held.truncated_message
            } else {
                self.truncated_message
            },
            authoritative_answer: if flags {
                held.authoritative_answer
            } else {
                self.authoritative_answer
            },
            opcode: if flags {
                held.opcode
            } else {
                self.opcode
            },
            response: if flags {
                held.response
            } else {
                self.response
            },
            rescode: if flags {
                held.rescode
            } else {
                self.rescode
            },
            checking_disabled: if flags {
                held.checking_disabled
            } else {
                self.checking_disabled
            },
            authed_data: if flags {
                held.authed_data
            } else {
                self.authed_data
            },
            z: if flags {
                held.z
            } else {
                self.z
            },
            recursion_available: if flags {
                held.recursion_available
            } else {
                self.recursion_available
            },
            questions: if bytes >= 6 {
                held.questions
            } else {
                self.questions
            },
            answers: if bytes >= 8 {
                held.answers
            } else {
                self.answers
            },
            authoritative_entries: if bytes >= 10 {
                held.authoritative_entries
            } else {
                self.authoritative_entries
            },
            resource_entries: if bytes >= 12 {
                held.resource_entries
            } else {
                self.resource_entries
            },
        }
    }

    /// The header `self` after a header was read into it at `at` in the message `buf`, as
    /// far as the buffer goes: the id, the flags and the counts that lie inside the buffer
    /// are those of the message, the others stay.
    pub open spec fn read_in_part(self, buf: Seq<u8>, at: int) -> DnsHeader {
        self.with_first(DnsHeader::held_at(buf, at), 512 - at)
    }

    /// A header of zeros: a query with no flag set and no entries.
    pub open spec fn new_spec() -> DnsHeader {
        DnsHeader {
            id: 0,
            recursion_desired: false,
            truncated_message: false,
            authoritative_answer: false,
            opcode: 0,
            response: false,
            rescode: ResultCode::NOERROR,
            checking_disabled: false,
            authed_data: false,
            z: false,
            recursion_available: false,
            questions: 0,
            answers: 0,
            authoritative_entries: 0,
            resource_entries: 0,
        }
    }

    /// A header of zeros: a query with no flag set and no entries.
    pub fn new() -> (h: DnsHeader)
        ensures
            h == DnsHeader::new_spec(),
    {
        DnsHeader {
            id: 0,
            recursion_desired: false,
            truncated_message: false,
            authoritative_answer: false,
            opcode: 0,
            response: false,
            rescode: ResultCode::NOERROR,
            checking_disabled: false,
            authed_data: false,
            z: false,
            recursion_available: false,
            questions: 0,
            answers: 0,
            authoritative_entries: 0,
            resource_entries: 0,
        }
    }

    /// Reads the header at the cursor into `self`. Where the buffer ends inside the
    /// header, the fields in front of its end are read and the others stay.
    pub fn read(&mut self, buffer: &mut PacketBuffer) -> (r: crate::Result<()>)
        ensures
            final(buffer).buffer == old(buffer).buffer,
            final(buffer).position == DnsHeader::parse(
                old(buffer).buffer@,
                old(buffer).position as int,
            ).cursor,
            *final(self) == old(self).read_in_part(
                old(buffer).buffer@,
                old(buffer).position as int,
            ),
            match r {
                Ok(()) => DnsHeader::parse(old(buffer).buffer@, old(buffer).position as int).result
                    == Ok::<DnsHeader, DnsError>(*final(self)),
                Err(e) => DnsHeader::parse(old(buffer).buffer@, old(buffer).position as int).result
                    == Err::<DnsHeader, DnsError>(e),
            },
    {
        let ghost buf = buffer.buffer@;
        let ghost at = buffer.position as int;
        let ghost held = DnsHeader::held_at(buf, at);
        let ghost before = *self;
        let ghost room = 512 - buffer.position;
        proof {
            lemma_with_first(before, held, 0, room);
            lemma_with_first(before, held, 2, room);
            lemma_with_first(before, held, 4, room);
            lemma_with_first(before, held, 6, room);
            lemma_with_first(before, held, 8, room);
            lemma_with_first(before, held, 10, room);
            lemma_with_first(before, held, 12, room);
            lemma_is_with_first(*self, before, held, 0);
        }
        self.id = buffer.read_u16()?;
        proof {
            lemma_is_with_first(*self, before, held, 2);
        }

        let flags = buffer.read_u16()?;
        let a = (flags >> 8) as u8;
        let b = (flags & 0xFF) as u8;
        proof {
            let high = buf[at + 2];
            let low = buf[at + 3];
            assert(flags == high as u16 * 0x100 + low as u16 ==> (flags >> 8) as u8 == high && (
            flags & 0xFF) as u8 == low) by (bit_vector);
        }
        self.set_flags(a, b);
        proof {
            lemma_is_with_first(*self, before, held, 4);
        }

        self.questions = buffer.read_u16()?;
        proof {
            lemma_is_with_first(*self, before, held, 6);
        }
        self.answers = buffer.read_u16()?;
        proof {
            lemma_is_with_first(*self, before, held, 8);
        }
        self.authoritative_entries = buffer.read_u16()?;
        proof {
            lemma_is_with_first(*self, before, held, 10);
        }
        self.resource_entries = buffer.read_u16()?;
        proof {
            lemma_is_with_first(*self, before, held, 12);
        }

        Ok(())
    }

    /// Sets the flags, the opcode and the response code from the two bytes `a` and `b` of
    /// the flags.
    fn set_flags(&mut self, a: u8, b: u8)
        ensures
            *final(self) == (DnsHeader {
                recursion_desired: a & 0x01 != 0,
                truncated_message: a & 0x02 != 0,
                authoritative_answer: a & 0x04 != 0,
                opcode: (a >> 3) & 0x0F,
                response: a & 0x80 != 0,
                rescode: ResultCode::of_number(b & 0x0F),
                checking_disabled: b & 0x10 != 0,
                authed_data: b & 0x20 != 0,
                z: b & 0x40 != 0,
                recursion_available: b & 0x80 != 0,
                ..*old(self)
            }),
    {
        proof {
            assert(((a & (1u8 << 0)) > 0 <==> a & 0x01 != 0) && ((a & (1u8 << 1)) > 0 <==> a
                & 0x02 != 0) && ((a & (1u8 << 2)) > 0 <==> a & 0x04 != 0) && ((a & (1u8 << 7)) > 0
                <==> a & 0x80 != 0)) by (bit_vector);
            assert(((b & (1u8 << 4)) > 0 <==> b & 0x10 != 0) && ((b & (1u8 << 5)) > 0 <==> b
                & 0x20 != 0) && ((b & (1u8 << 6)) > 0 <==> b & 0x40 != 0) && ((b & (1u8 << 7)) > 0
                <==> b & 0x80 != 0)) by (bit_vector);
        }
        self.recursion_desired = (a & (1 << 0)) > 0;
        self.truncated_message = (a & (1 << 1)) > 0;
        self.authoritative_answer = (a & (1 << 2)) > 0;
        self.opcode = (a >> 3) & 0x0F;
        self.response = (a & (1 << 7)) > 0;

        self.rescode = ResultCode::from_number(b & 0x0F);
        self.checking_disabled = (b & (1 << 4)) > 0;
        self.authed_data = (b & (1 << 5)) > 0;
        self.z = (b & (1 << 6)) > 0;
        self.recursion_available = (b & (1 << 7)) > 0;
    }

    /// Writes the header at the cursor. Fails where the buffer ends; the bytes that had
    /// room are written.
    pub fn write(&self, buffer: &mut PacketBuffer) -> (r: crate::Result<()>)
        ensures
            r == old(buffer).outcome(Emit::of(self.wire())),
            final(buffer).is_write_of(*old(buffer), self.wire()),
    {
        let high = (self.recursion_desired as u8) | ((self.truncated_message as u8) << 1) | ((
        self.authoritative_answer as u8) << 2) | (self.opcode << 3) | ((self.response as u8) << 7);
        let low = self.rescode.to_number() | ((self.checking_disabled as u8) << 4) | ((
        self.authed_data as u8) << 5) | ((self.z as u8) << 6) | ((self.recursion_available as u8)
            << 7);
        let id = split_u16(self.id);
        let questions = split_u16(self.questions);
        let answers = split_u16(self.answers);
        let authoritative_entries = split_u16(self.authoritative_entries);
        let resource_entries = split_u16(self.resource_entries);
        let bytes: [u8; 12] = [
            id.0,
            id.1,
            high,
            low,
            questions.0,
            questions.1,
            answers.0,
            answers.1,
            authoritative_entries.0,
            authoritative_entries.1,
            resource_entries.0,
            resource_entries.1,
        ];
        assert(bytes@ =~= self.wire());
        buffer.write_all(bytes.as_slice())
    }
}

/// The fields that lie in the first `room` bytes of a header are those in its first
/// `bytes` bytes, where `room` ends before the field behind them does.
proof fn lemma_with_first(header: DnsHeader, held: DnsHeader, bytes: int, room: int)
    requires
        bytes == 0 || bytes == 2 || bytes == 4 || bytes == 6 || bytes == 8 || bytes == 10 || bytes
            == 12,
    ensures
        (bytes == 0 || bytes <= room) && room < bytes + 2 ==> header.with_first(held, room)
            == header.with_first(held, bytes),
        bytes == 12 <= room ==> header.with_first(held, room) == header.with_first(held, bytes),
        bytes == 12 ==> header.with_first(held, bytes) == held,
{
    reveal(DnsHeader::with_first);
}

/// A header that has, field by field, what `with_first` says, is that header.
proof fn lemma_is_with_first(now: DnsHeader, header: DnsHeader, held: DnsHeader, bytes: int)
    requires
        now.id == if bytes >= 2 {
            held.id
        } else {
            header.id
        },
        bytes >= 4 ==> now.recursion_desired == held.recursion_desired && now.truncated_message
            == held.truncated_message && now.authoritative_answer == held.authoritative_answer
            && now.opcode == held.opcode && now.response == held.response && now.rescode
            == held.rescode && now.checking_disabled == held.checking_disabled && now.authed_data
            == held.authed_data && now.z == held.z && now.recursion_available
            == held.recursion_available,
        bytes < 4 ==> now.recursion_desired == header.recursion_desired && now.truncated_message
            == header.truncated_message && now.authoritative_answer == header.authoritative_answer
            && now.opcode == header.opcode && now.response == header.response && now.rescode
            == header.rescode && now.checking_disabled == header.checking_disabled
            && now.authed_data == header.authed_data && now.z == header.z
            && now.recursion_available == header.recursion_available,
        now.questions == if bytes >= 6 {
            held.questions
        } else {
            header.questions
        },
        now.answers == if bytes >= 8 {
            held.answers
        } else {
            header.answers
        },
        now.authoritative_entries == if bytes >= 10 {
            held.authoritative_entries
        } else {
            header.authoritative_entries
        },
        now.resource_entries == if bytes >= 12 {
            held.resource_entries
        } else {
            header.resource_entries
        },
    ensures
        now == header.with_first(held, bytes),
{
    reveal(DnsHeader::with_first);
}

/// The two bytes of `value`, most significant first.
fn split_u16(value: u16) -> (bytes: (u8, u8))
    ensures
        bytes.0 == (value / 0x100) as u8,
        bytes.1 == (value % 0x100) as u8,
{
    assert((value >> 8) as u8 == (value / 0x100) as u8 && (value & 0xFF) as u8 == (value
        % 0x100) as u8) by (bit_vector);
    ((value >> 8) as u8, (value & 0xFF) as u8)
}

/// The type of a question or of a record.
#[derive(PartialEq, Eq, Debug, Clone, Hash, Copy, Structural)]
pub enum QueryType {
    /// A type that this library does not know, with its number.
    UNKNOWN(u16),
    A,
    NS,
    CNAME,
    MX,
    AAAA,
}

impl QueryType {
    /// The number of the type on the wire.
    pub open spec fn number(self) -> u16 {
        match self {
            QueryType::UNKNOWN(x) => x,
            QueryType::A => 1,
            QueryType::NS => 2,
            QueryType::CNAME => 5,
            QueryType::MX => 15,
            QueryType::AAAA => 28,
        }
    }

    /// The type with the number `num`.
    pub open spec fn of_number(num: u16) -> QueryType {
        if num == 1 {
            QueryType::A
        } else if num == 2 {
            QueryType::NS
        } else if num == 5 {
            QueryType::CNAME
        } else if num == 15 {
            QueryType::MX
        } else if num == 28 {
            QueryType::AAAA
        } else {
            QueryType::UNKNOWN(num)
        }
    }

    /// The number of the type on the wire.
    pub fn to_number(&self) -> (num: u16)
        ensures
            num == self.number(),
    {
        match *self {
            QueryType::UNKNOWN(x) => x,
            QueryType::A => 1,
            QueryType::NS => 2,
            QueryType::CNAME => 5,
            QueryType::MX => 15,
            QueryType::AAAA => 28,
        }
    }

    /// The type with the number `num`.
    pub fn from_number(num: u16) -> (qtype: QueryType)
        ensures
            qtype == QueryType::of_number(num),
    {
        match num {
            1 => QueryType::A,
            2 => QueryType::NS,
            5 => QueryType::CNAME,
            15 => QueryType::MX,
            28 => QueryType::AAAA,
            _ => QueryType::UNKNOWN(num),
        }
    }
}

/// The number of the class "Internet", the only class that is written.
pub const CLASS_INTERNET: u16 = 1;

/// A question: a name and the type asked for.
#[derive(Debug, Clone, PartialEq, Eq)]
pub struct DnsQuestion {
    pub name: String,
    pub qtype: QueryType,
}

/// A question as a value: its name as text.
pub struct QuestionView {
    pub name: Seq<char>,
    pub qtype: QueryType,
}

impl View for DnsQuestion {
    type V = QuestionView;

    open spec fn view(&self) -> QuestionView {
        QuestionView { name: self.name@, qtype: self.qtype }
    }
}

impl QuestionView {
    /// What writing the question lays down: the name, the number of the type, and the
    /// class "Internet".
    pub open spec fn emit(self) -> Emit {
        name_emit(encode_utf8(self.name)).followed_by(
            Emit::of(be16(self.qtype.number()) + be16(CLASS_INTERNET)),
        )
    }

    /// Reads a question at `at` in the message `buf`: the question, and where the cursor
    /// is left. The class is passed over.
    pub open spec fn parse(buf: Seq<u8>, at: int) -> Parsed<QuestionView> {
        let name = parse_name(buf, at);
        match name.result {
            Err(e) => Parsed::failed(e, name.cursor),
            Ok(text) => if name.cursor + 4 <= 512 {
                Parsed::done(
                    QuestionView {
                        name: text,
                        qtype: QueryType::of_number(u16_at(buf, name.cursor)),
                    },
                    name.cursor + 4,
                )
            } else {
                Parsed::failed(DnsError::BufferEnd, end_from(name.cursor))
            },
        }
    }
}

impl DnsQuestion {
    /// The question for `name` and `qtype`.
    pub fn new(name: String, qtype: QueryType) -> (q: DnsQuestion)
        ensures
            q.name == name,
            q.qtype == qtype,
    {
        DnsQuestion { name, qtype }
    }

    /// Reads the question at the cursor into `self`. The name that is read is appended to
    /// the name that `self` holds, as far as it was read. The type is set where its two
    /// bytes were read.
    pub fn read(&mut self, buffer: &mut PacketBuffer) -> (r: crate::Result<()>)
        ensures
            final(buffer).buffer == old(buffer).buffer,
            final(buffer).position == QuestionView::parse(
                old(buffer).buffer@,
                old(buffer).position as int,
            ).cursor,
            final(self).name@ == old(self).name@ + walk_name(
                old(buffer).buffer@,
                old(buffer).position as int,
                0,
            ).text(),
            ({
                let name = parse_name(old(buffer).buffer@, old(buffer).position as int);
                final(self).qtype == if name.result is Ok && name.cursor + 2 <= 512 {
                    QueryType::of_number(u16_at(old(buffer).buffer@, name.cursor))
                } else {
                    old(self).qtype
                }
            }),
            match r {
                Ok(()) => QuestionView::parse(
                    old(buffer).buffer@,
                    old(buffer).position as int,
                ).result matches Ok(q) && final(self)@ == (QuestionView {
                    name: old(self).name@ + q.name,
                    qtype: q.qtype,
                }),
                Err(e) => QuestionView::parse(
                    old(buffer).buffer@,
                    old(buffer).position as int,
                ).result == Err::<QuestionView, DnsError>(e),
            },
    {
        buffer.read_qname(&mut self.name)?;
        self.qtype = QueryType::from_number(buffer.read_u16()?);
        let _class = buffer.read_u16()?;

        Ok(())
    }

    /// Writes the question at the cursor. Fails in front of a label of more than 52
    /// bytes, or where the buffer ends; what was written until then stays.
    pub fn write(&self, buffer: &mut PacketBuffer) -> (r: crate::Result<()>)
        ensures
            r == old(buffer).outcome(self@.emit()),
            final(buffer).is_write_of(*old(buffer), self@.emit().bytes),
    {
        let type_numeric = self.qtype.to_number();
        let ghost name = name_emit(encode_utf8(self.name@));
        let ghost qtype = Emit::of(be16(type_numeric));
        let ghost class = Emit::of(be16(CLASS_INTERNET));
        let ghost mut done = Emit::nothing();
        proof {
            lemma_write_nothing(*buffer);
            lemma_followed_by_nothing(name.followed_by(qtype.followed_by(class)));
            lemma_followed_by_nothing(class);
        }
        let ghost mid = *buffer;
        let r = buffer.write_qname(self.name.as_str());
        proof {
            lemma_write_step(*old(buffer), mid, *buffer, done, name, qtype.followed_by(class));
            done = done.followed_by(name);
        }
        if r.is_err() {
            return r;
        }
        let ghost mid = *buffer;
        let r = buffer.write_u16(type_numeric);
        proof {
            lemma_write_step(*old(buffer), mid, *buffer, done, qtype, class);
            done = done.followed_by(qtype);
        }
        if r.is_err() {
            return r;
        }
        let ghost mid = *buffer;
        let r = buffer.write_u16(CLASS_INTERNET);
        proof {
            lemma_write_step(*old(buffer), mid, *buffer, done, class, Emit::nothing());
        }
        r
    }
}

/// A resource record: the name that owns it, how long it may be kept, in seconds, and
/// what it holds, by its type.
#[derive(Debug, Clone, PartialEq, Eq, Hash, PartialOrd, Ord)]
#[allow(inconsistent_fields)]
pub enum DnsRecord {
    /// A record of a type that this library does not know: the number of the type and the
    /// length of the data. The data was passed over.
    UNKNOWN { domain: String, qtype: u16, data_length: u16, ttl: u32 },
    /// An IPv4 address, by its four bytes.
    A { domain: String, address: [u8; 4], ttl: u32 },
    /// The name of a name server.
    NS { domain: String, host: String, ttl: u32 },
    /// The name that the owner is an alias of.
    CNAME { domain: String, host: String, ttl: u32 },
    /// The name of a mail exchange and its priority.
    MX { domain: String, priority: u16, host: String, ttl: u32 },
    /// An IPv6 address, by its eight groups of 16 bits.
    AAAA { domain: String, address: [u16; 8], ttl: u32 },
}

/// A record as a value: its names as text, its address as a sequence.
#[allow(inconsistent_fields)]
pub enum RecordView {
    UNKNOWN { domain: Seq<char>, qtype: u16, data_length: u16, ttl: u32 },
    A { domain: Seq<char>, address: Seq<u8>, ttl: u32 },
    NS { domain: Seq<char>, host: Seq<char>, ttl: u32 },
    CNAME { domain: Seq<char>, host: Seq<char>, ttl: u32 },
    MX { domain: Seq<char>, priority: u16, host: Seq<char>, ttl: u32 },
    AAAA { domain: Seq<char>, address: Seq<u16>, ttl: u32 },
}

impl View for DnsRecord {
    type V = RecordView;

    open spec fn view(&self) -> RecordView {
        match *self {
            DnsRecord::UNKNOWN { domain, qtype, data_length, ttl } => RecordView::UNKNOWN {
                domain: domain@,
                qtype,
                data_length,
                ttl,
            },
            DnsRecord::A { domain, address, ttl } => RecordView::A {
                domain: domain@,
                address: address@,
                ttl,
            },
            DnsRecord::NS { domain, host, ttl } => RecordView::NS {
                domain: domain@,
                host: host@,
                ttl,
            },
            DnsRecord::CNAME { domain, host, ttl } => RecordView::CNAME {
                domain: domain@,
                host: host@,
                ttl,
            },
            DnsRecord::MX { domain, priority, host, ttl } => RecordView::MX {
                domain: domain@,
                priority,
                host: host@,
                ttl,
            },
            DnsRecord::AAAA { domain, address, ttl } => RecordView::AAAA {
                domain: domain@,
                address: address@,
                ttl,
            },
        }
    }
}

/// What writing the front of a record lays down: the name of the owner, the number of
/// the type, the class "Internet" and the time to live.
pub open spec fn preamble_emit(domain: Seq<char>, qtype: u16, ttl: u32) -> Emit {
    name_emit(encode_utf8(domain)).followed_by(
        Emit::of(be16(qtype)).followed_by(
            Emit::of(be16(CLASS_INTERNET)).followed_by(Emit::of(be32(ttl))),
        ),
    )
}

/// What writing data that ends in a host name lays down: the priority, where there is
/// one, and the name.
pub open spec fn host_emit(priority: Option<u16>, host: Seq<char>) -> Emit {
    match priority {
        Some(p) => Emit::of(be16(p)).followed_by(name_emit(encode_utf8(host))),
        None => name_emit(encode_utf8(host)),
    }
}

/// What writing `data` behind its length, in two bytes, lays down.
pub open spec fn sized(data: Emit) -> Emit {
    Emit::of(be16(data.bytes.len() as u16)).followed_by(data)
}

impl RecordView {
    /// The name that owns the record.
    pub open spec fn domain(self) -> Seq<char> {
        match self {
            RecordView::UNKNOWN { domain, .. } => domain,
            RecordView::A { domain, .. } => domain,
            RecordView::NS { domain, .. } => domain,
            RecordView::CNAME { domain, .. } => domain,
            RecordView::MX { domain, .. } => domain,
            RecordView::AAAA { domain, .. } => domain,
        }
    }

    /// The time to live.
    pub open spec fn ttl(self) -> u32 {
        match self {
            RecordView::UNKNOWN { ttl, .. } => ttl,
            RecordView::A { ttl, .. } => ttl,
            RecordView::NS { ttl, .. } => ttl,
            RecordView::CNAME { ttl, .. } => ttl,
            RecordView::MX { ttl, .. } => ttl,
            RecordView::AAAA { ttl, .. } => ttl,
        }
    }

    /// The type of the record.
    pub open spec fn qtype(self) -> QueryType {
        match self {
            RecordView::UNKNOWN { qtype, .. } => QueryType::UNKNOWN(qtype),
            RecordView::A { .. } => QueryType::A,
            RecordView::NS { .. } => QueryType::NS,
            RecordView::CNAME { .. } => QueryType::CNAME,
            RecordView::MX { .. } => QueryType::MX,
            RecordView::AAAA { .. } => QueryType::AAAA,
        }
    }

    /// What writing the data of the record lays down.
    pub open spec fn data_emit(self) -> Emit {
        match self {
            RecordView::UNKNOWN { .. } => Emit::nothing(),
            RecordView::A { address, .. } => Emit::of(address),
            RecordView::NS { host, .. } => host_emit(None, host),
            RecordView::CNAME { host, .. } => host_emit(None, host),
            RecordView::MX { priority, host, .. } => host_emit(Some(priority), host),
            RecordView::AAAA { address, .. } => Emit::of(be16s(address)),
        }
    }

    /// What writing the record lays down: its front, and its data behind their length.
    /// Of a record of an unknown type nothing is written.
    pub open spec fn emit(self) -> Emit {
        if self is UNKNOWN {
            Emit::nothing()
        } else {
            preamble_emit(self.domain(), self.qtype().number(), self.ttl()).followed_by(
                sized(self.data_emit()),
            )
        }
    }

    /// Reads the data of a record at `at` in the message `buf`, and with them the record,
    /// of which the front was read already. The length that the record declares counts for
    /// an unknown type only, of which the data are passed over.
    pub open spec fn parse_data(
        buf: Seq<u8>,
        at: int,
        domain: Seq<char>,
        qtype: u16,
        ttl: u32,
        data_length: u16,
    ) -> Parsed<RecordView> {
        match QueryType::of_number(qtype) {
            QueryType::A => if at + 4 <= 512 {
                Parsed::done(
                    RecordView::A { domain, address: buf.subrange(at, at + 4), ttl },
                    at + 4,
                )
            } else {
                Parsed::failed(DnsError::BufferEnd, end_from(at))
            },
            QueryType::AAAA => if at + 16 <= 512 {
                Parsed::done(
                    RecordView::AAAA {
                        domain,
                        address: Seq::new(8, |i: int| u16_at(buf, at + 2 * i)),
                        ttl,
                    },
                    at + 16,
                )
            } else {
                Parsed::failed(DnsError::BufferEnd, end_from(at))
            },
            QueryType::NS => {
                let name = parse_name(buf, at);
                match name.result {
                    Ok(host) => Parsed::done(RecordView::NS { domain, host, ttl }, name.cursor),
                    Err(e) => Parsed::failed(e, name.cursor),
                }
            },
            QueryType::CNAME => {
                let name = parse_name(buf, at);
                match name.result {
                    Ok(host) => Parsed::done(RecordView::CNAME { domain, host, ttl }, name.cursor),
                    Err(e) => Parsed::failed(e, name.cursor),
                }
            },
            QueryType::MX => if at + 2 <= 512 {
                let name = parse_name(buf, at + 2);
                match name.result {
                    Ok(host) => Parsed::done(
                        RecordView::MX { domain, priority: u16_at(buf, at), host, ttl },
                        name.cursor,
                    ),
                    Err(e) => Parsed::failed(e, name.cursor),
                }
            } else {
                Parsed::failed(DnsError::BufferEnd, end_from(at))
            },
            QueryType::UNKNOWN(_) => Parsed::done(
                RecordView::UNKNOWN { domain, qtype, data_length, ttl },
                at + data_length,
            ),
        }
    }

    /// Reads a record at `at` in the message `buf`: the record, and where the cursor is
    /// left. The class is passed over.
    pub open spec fn parse(buf: Seq<u8>, at: int) -> Parsed<RecordView> {
        let name = parse_name(buf, at);
        match name.result {
            Err(e) => Parsed::failed(e, name.cursor),
            Ok(domain) => if name.cursor + 10 <= 512 {
                RecordView::parse_data(
                    buf,
                    name.cursor + 10,
                    domain,
                    u16_at(buf, name.cursor),
                    u32_at(buf, name.cursor + 4),
                    u16_at(buf, name.cursor + 8),
                )
            } else {
                Parsed::failed(DnsError::BufferEnd, end_from(name.cursor))
            },
        }
    }
}

impl DnsRecord {
    /// Reads the record at the cursor. Where the reading fails, the cursor stays where it
    /// stopped.
    pub fn read(buffer: &mut PacketBuffer) -> (r: crate::Result<DnsRecord>)
        ensures
            final(buffer).buffer == old(buffer).buffer,
            final(buffer).position == RecordView::parse(
                old(buffer).buffer@,
                old(buffer).position as int,
            ).cursor,
            match r {
                Ok(record) => RecordView::parse(
                    old(buffer).buffer@,
                    old(buffer).position as int,
                ).result == Ok::<RecordView, DnsError>(record@),
                Err(e) => RecordView::parse(
                    old(buffer).buffer@,
                    old(buffer).position as int,
                ).result == Err::<RecordView, DnsError>(e),
            },
    {
        let mut domain = String::new();
        buffer.read_qname(&mut domain)?;
        assert(Seq::<char>::empty() + domain@ =~= domain@);

        let qtype_num = buffer.read_u16()?;
        let _class = buffer.read_u16()?;
        let ttl = buffer.read_u32()?;
        let data_length = buffer.read_u16()?;

        read_data(buffer, domain, qtype_num, ttl, data_length)
    }

    /// Writes the record at the cursor and returns the number of bytes written. The
    /// length of the data of a record that ends in a host name is written last, into the
    /// two bytes that were left for it. Of a record of an unknown type nothing is written.
    /// Fails in front of a label of more than 52 bytes, or where the buffer ends; the
    /// cursor stays where the writing stopped, and no byte has changed but between where
    /// the cursor stood and where it stands.
    pub fn write(&self, buffer: &mut PacketBuffer) -> (r: crate::Result<usize>)
        ensures
            final(buffer).position == old(buffer).cursor_after(self@.emit().bytes.len() as int),
            final(buffer).is_written_from(*old(buffer)),
            match r {
                Ok(n) => old(buffer).outcome(self@.emit()) is Ok && final(buffer).is_write_of(
                    *old(buffer),
                    self@.emit().bytes,
                ) && n == self@.emit().bytes.len(),
                Err(e) => old(buffer).outcome(self@.emit()) == Err::<(), DnsError>(e),
            },
    {
        let start_position = buffer.position();
        let ghost front = preamble_emit(self@.domain(), self@.qtype().number(), self@.ttl());
        let ghost data = sized(self@.data_emit());
        proof {
            lemma_write_nothing(*buffer);
            lemma_followed_by_nothing(front);
            lemma_followed_by_nothing(data);
            lemma_outcome_step(*old(buffer), *old(buffer), Emit::nothing(), front, data);
            lemma_is_written_from_itself(*buffer);
            lemma_is_written_from_onwards(*buffer, *buffer);
        }

        match self {
            DnsRecord::A { domain, address, ttl } => {
                write_preamble(buffer, domain.as_str(), QueryType::A.to_number(), *ttl)?;
                let ghost mid = *buffer;
                proof {
                    lemma_outcome_step(*old(buffer), mid, front, data, Emit::nothing());
                    lemma_is_written_from_onwards(*old(buffer), mid);
                }
                write_octets(buffer, address)?;
                proof {
                    lemma_write_step(*old(buffer), mid, *buffer, front, data, Emit::nothing());
                }
            },
            DnsRecord::NS { domain, host, ttl } => {
                write_preamble(buffer, domain.as_str(), QueryType::NS.to_number(), *ttl)?;
                let ghost mid = *buffer;
                proof {
                    lemma_outcome_step(*old(buffer), mid, front, data, Emit::nothing());
                    lemma_is_written_from_onwards(*old(buffer), mid);
                }
                write_host_data(buffer, None, host.as_str())?;
                proof {
                    lemma_write_step(*old(buffer), mid, *buffer, front, data, Emit::nothing());
                }
            },
            DnsRecord::CNAME { domain, host, ttl } => {
                write_preamble(buffer, domain.as_str(), QueryType::CNAME.to_number(), *ttl)?;
                let ghost mid = *buffer;
                proof {
                    lemma_outcome_step(*old(buffer), mid, front, data, Emit::nothing());
                    lemma_is_written_from_onwards(*old(buffer), mid);
                }
                write_host_data(buffer, None, host.as_str())?;
                proof {
                    lemma_write_step(*old(buffer), mid, *buffer, front, data, Emit::nothing());
                }
            },
            DnsRecord::MX { domain, priority, host, ttl } => {
                write_preamble(buffer, domain.as_str(), QueryType::MX.to_number(), *ttl)?;
                let ghost mid = *buffer;
                proof {
                    lemma_outcome_step(*old(buffer), mid, front, data, Emit::nothing());
                    lemma_is_written_from_onwards(*old(buffer), mid);
                }
                write_host_data(buffer, Some(*priority), host.as_str())?;
                proof {
                    lemma_write_step(*old(buffer), mid, *buffer, front, data, Emit::nothing());
                }
            },
            DnsRecord::AAAA { domain, address, ttl } => {
                write_preamble(buffer, domain.as_str(), QueryType::AAAA.to_number(), *ttl)?;
                let ghost mid = *buffer;
                proof {
                    lemma_outcome_step(*old(buffer), mid, front, data, Emit::nothing());
                    lemma_is_written_from_onwards(*old(buffer), mid);
                }
                write_groups(buffer, address)?;
                proof {
                    lemma_write_step(*old(buffer), mid, *buffer, front, data, Emit::nothing());
                }
            },
            DnsRecord::UNKNOWN { .. } => {},
        }

        Ok(buffer.position() - start_position)
    }
}

/// Writes the four bytes of an IPv4 address at the cursor, behind their length.
fn write_octets(buffer: &mut PacketBuffer, address: &[u8; 4]) -> (r: crate::Result<()>)
    ensures
        r == old(buffer).outcome(sized(Emit::of(address@))),
        final(buffer).is_write_of(*old(buffer), sized(Emit::of(address@)).bytes),
{
    let ghost size = Emit::of(be16(4));
    let ghost octets = Emit::of(address@);
    proof {
        lemma_write_nothing(*buffer);
        lemma_followed_by_nothing(size.followed_by(octets));
        lemma_followed_by_nothing(octets);
    }
    let ghost mid = *buffer;
    let r = buffer.write_u16(4);
    proof {
        lemma_write_step(*old(buffer), mid, *buffer, Emit::nothing(), size, octets);
    }
    if r.is_err() {
        return r;
    }
    let ghost mid = *buffer;
    let r = buffer.write_all(address.as_slice());
    proof {
        lemma_write_step(*old(buffer), mid, *buffer, size, octets, Emit::nothing());
    }
    r
}

/// Writes the eight groups of an IPv6 address at the cursor, behind their length in
/// bytes.
fn write_groups(buffer: &mut PacketBuffer, address: &[u16; 8]) -> (r: crate::Result<()>)
    ensures
        r == old(buffer).outcome(sized(Emit::of(be16s(address@)))),
        final(buffer).is_write_of(*old(buffer), sized(Emit::of(be16s(address@))).bytes),
{
    let ghost size = Emit::of(be16(16));
    let ghost groups = Emit::of(be16s(address@));
    proof {
        lemma_be16s_len(address@);
        lemma_write_nothing(*buffer);
        lemma_followed_by_nothing(size.followed_by(groups));
        lemma_followed_by_nothing(groups);
    }
    let ghost mid = *buffer;
    let r = buffer.write_u16(16);
    proof {
        lemma_write_step(*old(buffer), mid, *buffer, Emit::nothing(), size, groups);
    }
    if r.is_err() {
        return r;
    }
    let ghost mid = *buffer;
    let r = buffer.write_all_u16(address.as_slice());
    proof {
        lemma_write_step(*old(buffer), mid, *buffer, size, groups, Emit::nothing());
    }
    r
}

/// Reads the data of a record at the cursor, and makes the record of them and of its
/// front, which was read already.
fn read_data(
    buffer: &mut PacketBuffer,
    domain: String,
    qtype_num: u16,
    ttl: u32,
    data_length: u16,
) -> (r: crate::Result<DnsRecord>)
    requires
        old(buffer).position <= 512,
    ensures
        final(buffer).buffer == old(buffer).buffer,
        final(buffer).position == RecordView::parse_data(
            old(buffer).buffer@,
            old(buffer).position as int,
            domain@,
            qtype_num,
            ttl,
            data_length,
        ).cursor,
        match r {
            Ok(record) => RecordView::parse_data(
                old(buffer).buffer@,
                old(buffer).position as int,
                domain@,
                qtype_num,
                ttl,
                data_length,
            ).result == Ok::<RecordView, DnsError>(record@),
            Err(e) => RecordView::parse_data(
                old(buffer).buffer@,
                old(buffer).position as int,
                domain@,
                qtype_num,
                ttl,
                data_length,
            ).result == Err::<RecordView, DnsError>(e),
        },
{
    match QueryType::from_number(qtype_num) {
        QueryType::A => {
            let address = read_octets(buffer)?;
            Ok(DnsRecord::A { domain, address, ttl })
        },
        QueryType::AAAA => {
            let address = read_groups(buffer)?;
            Ok(DnsRecord::AAAA { domain, address, ttl })
        },
        QueryType::NS => {
            let mut ns = String::new();
            buffer.read_qname(&mut ns)?;
            assert(Seq::<char>::empty() + ns@ =~= ns@);

            Ok(DnsRecord::NS { domain, host: ns, ttl })
        },
        QueryType::CNAME => {
            let mut cname = String::new();
            buffer.read_qname(&mut cname)?;
            assert(Seq::<char>::empty() + cname@ =~= cname@);

            Ok(DnsRecord::CNAME { domain, host: cname, ttl })
        },
        QueryType::MX => {
            let priority = buffer.read_u16()?;
            let mut mx = String::new();
            buffer.read_qname(&mut mx)?;
            assert(Seq::<char>::empty() + mx@ =~= mx@);

            Ok(DnsRecord::MX { domain, priority, host: mx, ttl })
        },
        QueryType::UNKNOWN(_) => {
            buffer.step(data_length as usize)?;

            Ok(DnsRecord::UNKNOWN { domain, qtype: qtype_num, data_length, ttl })
        },
    }
}

/// Reads the four bytes of an IPv4 address at the cursor.
fn read_octets(buffer: &mut PacketBuffer) -> (r: crate::Result<[u8; 4]>)
    ensures
        final(buffer).buffer == old(buffer).buffer,
        match r {
            Ok(address) => old(buffer).can_read(4) && address@ == old(buffer).buffer@.subrange(
                old(buffer).position as int,
                old(buffer).position + 4,
            ) && final(buffer).position == old(buffer).position + 4,
            Err(e) => !old(buffer).can_read(4) && e == DnsError::BufferEnd
                && final(buffer).position == old(buffer).cursor_at_end(),
        },
{
    let ghost buf = buffer.buffer@;
    let ghost at = buffer.position as int;
    let raw_address = buffer.read_u32()?;
    let address = [
        ((raw_address >> 24) & 0xFF) as u8,
        ((raw_address >> 16) & 0xFF) as u8,
        ((raw_address >> 8) & 0xFF) as u8,
        ((raw_address >> 0) & 0xFF) as u8,
    ];
    proof {
        let b0 = buf[at];
        let b1 = buf[at + 1];
        let b2 = buf[at + 2];
        let b3 = buf[at + 3];
        assert(raw_address == b0 as u32 * 0x100_0000 + b1 as u32 * 0x1_0000 + b2 as u32 * 0x100
            + b3 as u32 ==> ((raw_address >> 24) & 0xFF) as u8 == b0 && ((raw_address >> 16)
            & 0xFF) as u8 == b1 && ((raw_address >> 8) & 0xFF) as u8 == b2 && ((raw_address >> 0)
            & 0xFF) as u8 == b3) by (bit_vector);
        assert(address@ =~= buf.subrange(at, at + 4));
    }
    Ok(address)
}

/// Reads the eight groups of an IPv6 address at the cursor.
fn read_groups(buffer: &mut PacketBuffer) -> (r: crate::Result<[u16; 8]>)
    ensures
        final(buffer).buffer == old(buffer).buffer,
        match r {
            Ok(address) => old(buffer).can_read(16) && address@ == Seq::new(
                8,
                |i: int| u16_at(old(buffer).buffer@, old(buffer).position + 2 * i),
            ) && final(buffer).position == old(buffer).position + 16,
            Err(e) => !old(buffer).can_read(16) && e == DnsError::BufferEnd
                && final(buffer).position == old(buffer).cursor_at_end(),
        },
{
    let ghost buf = buffer.buffer@;
    let ghost at = buffer.position as int;
    let raw_address1 = buffer.read_u32()?;
    let raw_address2 = buffer.read_u32()?;
    let raw_address3 = buffer.read_u32()?;
    let raw_address4 = buffer.read_u32()?;
    let address = [
        ((raw_address1 >> 16) & 0xFFFF) as u16,
        ((raw_address1 >> 0) & 0xFFFF) as u16,
        ((raw_address2 >> 16) & 0xFFFF) as u16,
        ((raw_address2 >> 0) & 0xFFFF) as u16,
        ((raw_address3 >> 16) & 0xFFFF) as u16,
        ((raw_address3 >> 0) & 0xFFFF) as u16,
        ((raw_address4 >> 16) & 0xFFFF) as u16,
        ((raw_address4 >> 0) & 0xFFFF) as u16,
    ];
    proof {
        lemma_halves(buf, at, raw_address1);
        lemma_halves(buf, at + 4, raw_address2);
        lemma_halves(buf, at + 8, raw_address3);
        lemma_halves(buf, at + 12, raw_address4);
        assert(address@ =~= Seq::new(8, |i: int| u16_at(buf, at + 2 * i)));
    }
    Ok(address)
}

/// Writes the front of a record at the cursor.
fn write_preamble(buffer: &mut PacketBuffer, domain: &str, qtype: u16, ttl: u32) -> (r:
    crate::Result<()>)
    ensures
        r == old(buffer).outcome(preamble_emit(domain@, qtype, ttl)),
        final(buffer).is_write_of(*old(buffer), preamble_emit(domain@, qtype, ttl).bytes),
{
    let ghost e0 = name_emit(encode_utf8(domain@));
    let ghost e1 = Emit::of(be16(qtype));
    let ghost e2 = Emit::of(be16(CLASS_INTERNET));
    let ghost e3 = Emit::of(be32(ttl));
    let ghost mut done = Emit::nothing();
    proof {
        lemma_write_nothing(*buffer);
        lemma_followed_by_nothing(preamble_emit(domain@, qtype, ttl));
        lemma_followed_by_nothing(e3);
    }
    let ghost mid = *buffer;
    let r = buffer.write_qname(domain);
    proof {
        lemma_write_step(*old(buffer), mid, *buffer, done, e0, e1.followed_by(e2.followed_by(e3)));
        done = done.followed_by(e0);
    }
    if r.is_err() {
        return r;
    }
    let ghost mid = *buffer;
    let r = buffer.write_u16(qtype);
    proof {
        lemma_write_step(*old(buffer), mid, *buffer, done, e1, e2.followed_by(e3));
        done = done.followed_by(e1);
    }
    if r.is_err() {
        return r;
    }
    let ghost mid = *buffer;
    let r = buffer.write_u16(CLASS_INTERNET);
    proof {
        lemma_write_step(*old(buffer), mid, *buffer, done, e2, e3);
        done = done.followed_by(e2);
    }
    if r.is_err() {
        return r;
    }
    let ghost mid = *buffer;
    let r = buffer.write_u32(ttl);
    proof {
        lemma_write_step(*old(buffer), mid, *buffer, done, e3, Emit::nothing());
    }
    r
}

/// Writes data that end in a host name at the cursor, behind their length: two bytes are
/// left for the length, the data are written, and the length is written into the two
/// bytes.
fn write_host_data(buffer: &mut PacketBuffer, priority: Option<u16>, host: &str) -> (r:
    crate::Result<()>)
    ensures
        r == old(buffer).outcome(sized(host_emit(priority, host@))),
        r is Ok ==> final(buffer).is_write_of(
            *old(buffer),
            sized(host_emit(priority, host@)).bytes,
        ),
        final(buffer).position == old(buffer).cursor_after(
            sized(host_emit(priority, host@)).bytes.len() as int,
        ),
        final(buffer).is_written_from(*old(buffer)),
{
    let position = buffer.position();
    let ghost room = Emit::of(be16(0));
    let ghost name = name_emit(encode_utf8(host@));
    let ghost data = host_emit(priority, host@);
    let ghost mut done = Emit::nothing();
    proof {
        lemma_write_nothing(*buffer);
        lemma_followed_by_nothing(room.followed_by(data));
        lemma_followed_by_nothing(name);
    }
    let ghost mid = *buffer;
    let r = buffer.write_u16(0);
    proof {
        lemma_write_step(*old(buffer), mid, *buffer, done, room, data);
        done = done.followed_by(room);
        lemma_write_is_written_from(*old(buffer), *buffer, done.bytes);
    }
    if r.is_err() {
        return r;
    }
    if let Some(p) = priority {
        let ghost mid = *buffer;
        let r = buffer.write_u16(p);
        proof {
            lemma_write_step(*old(buffer), mid, *buffer, done, Emit::of(be16(p)), name);
            done = done.followed_by(Emit::of(be16(p)));
            lemma_write_is_written_from(*old(buffer), *buffer, done.bytes);
        }
        if r.is_err() {
            return r;
        }
    }
    let ghost mid = *buffer;
    let r = buffer.write_qname(host);
    proof {
        lemma_write_step(*old(buffer), mid, *buffer, done, name, Emit::nothing());
        lemma_write_is_written_from(*old(buffer), *buffer, done.followed_by(name).bytes);
    }
    if r.is_err() {
        return r;
    }
    let size = buffer.position() - (position + 2);
    buffer.set_u16(position, size as u16)?;
    proof {
        assert(buffer.buffer@ =~= splice(
            old(buffer).buffer@,
            old(buffer).position as int,
            sized(data).bytes,
        ));
        lemma_write_is_written_from(*old(buffer), *buffer, sized(data).bytes);
    }
    Ok(())
}

/// The two halves of the 32-bit integer at `at` are the 16-bit integers at `at` and at
/// `at + 2`.
proof fn lemma_halves(buf: Seq<u8>, at: int, raw: u32)
    requires
        0 <= at,
        at + 4 <= buf.len(),
        raw == u32_at(buf, at),
    ensures
        ((raw >> 16) & 0xFFFF) as u16 == u16_at(buf, at),
        ((raw >> 0) & 0xFFFF) as u16 == u16_at(buf, at + 2),
{
    let b0 = buf[at];
    let b1 = buf[at + 1];
    let b2 = buf[at + 2];
    let b3 = buf[at + 3];
    assert(raw == b0 as u32 * 0x100_0000 + b1 as u32 * 0x1_0000 + b2 as u32 * 0x100 + b3 as u32
        ==> ((raw >> 16) & 0xFFFF) as u16 == b0 as u16 * 0x100 + b1 as u16 && ((raw >> 0)
        & 0xFFFF) as u16 == b2 as u16 * 0x100 + b3 as u16) by (bit_vector);
}

/// A message: the header and the four lists, each in the order of the wire.
#[derive(Clone, Debug, PartialEq, Eq)]
pub struct DnsPacket {
    pub header: DnsHeader,
    pub questions: Vec<DnsQuestion>,
    pub answers: Vec<DnsRecord>,
    pub authorities: Vec<DnsRecord>,
    pub resources: Vec<DnsRecord>,
}

/// A message as a value.
pub struct PacketView {
    pub header: DnsHeader,
    pub questions: Seq<QuestionView>,
    pub answers: Seq<RecordView>,
    pub authorities: Seq<RecordView>,
    pub resources: Seq<RecordView>,
}

/// The questions `questions` as values.
pub open spec fn question_views(questions: Seq<DnsQuestion>) -> Seq<QuestionView> {
    questions.map_values(|q: DnsQuestion| q@)
}

/// The records `records` as values.
pub open spec fn record_views(records: Seq<DnsRecord>) -> Seq<RecordView> {
    records.map_values(|r: DnsRecord| r@)
}

impl View for DnsPacket {
    type V = PacketView;

    open spec fn view(&self) -> PacketView {
        PacketView {
            header: self.header,
            questions: question_views(self.questions@),
            answers: record_views(self.answers@),
            authorities: record_views(self.authorities@),
            resources: record_views(self.resources@),
        }
    }
}

/// What writing `questions` lays down, one after the other.
pub open spec fn questions_emit(questions: Seq<QuestionView>) -> Emit {
    emit_all(questions.map_values(|q: QuestionView| q.emit()))
}

/// What writing `records` lays down, one after the other.
pub open spec fn records_emit(records: Seq<RecordView>) -> Emit {
    emit_all(records.map_values(|r: RecordView| r.emit()))
}

/// Reads `count` questions from `at` on in the message `buf`: the questions, and where
/// the cursor is left.
pub open spec fn parse_questions(buf: Seq<u8>, at: int, count: nat) -> Parsed<Seq<QuestionView>>
    decreases count,
{
    if count == 0 {
        Parsed::done(Seq::empty(), at)
    } else {
        let front = parse_questions(buf, at, (count - 1) as nat);
        match front.result {
            Err(e) => front,
            Ok(questions) => {
                let last = QuestionView::parse(buf, front.cursor);
                match last.result {
                    Err(e) => Parsed::failed(e, last.cursor),
                    Ok(question) => Parsed::done(questions.push(question), last.cursor),
                }
            },
        }
    }
}

/// Reads `count` records from `at` on in the message `buf`: the records, and where the
/// cursor is left.
pub open spec fn parse_records(buf: Seq<u8>, at: int, count: nat) -> Parsed<Seq<RecordView>>
    decreases count,
{
    if count == 0 {
        Parsed::done(Seq::empty(), at)
    } else {
        let front = parse_records(buf, at, (count - 1) as nat);
        match front.result {
            Err(e) => front,
            Ok(records) => {
                let last = RecordView::parse(buf, front.cursor);
                match last.result {
                    Err(e) => Parsed::failed(e, last.cursor),
                    Ok(record) => Parsed::done(records.push(record), last.cursor),
                }
            },
        }
    }
}

/// A reading of questions that has failed stays as it is, however many more are asked
/// for.
pub proof fn lemma_parse_questions_failed(buf: Seq<u8>, at: int, count: nat, more: nat)
    requires
        count <= more,
        parse_questions(buf, at, count).result is Err,
    ensures
        parse_questions(buf, at, more) == parse_questions(buf, at, count),
    decreases more,
{
    if count < more {
        lemma_parse_questions_failed(buf, at, count, (more - 1) as nat);
    }
}

/// A reading of records that has failed stays as it is, however many more are asked for.
pub proof fn lemma_parse_records_failed(buf: Seq<u8>, at: int, count: nat, more: nat)
    requires
        count <= more,
        parse_records(buf, at, count).result is Err,
    ensures
        parse_records(buf, at, more) == parse_records(buf, at, count),
    decreases more,
{
    if count < more {
        lemma_parse_records_failed(buf, at, count, (more - 1) as nat);
    }
}

impl PacketView {
    /// The header with the four counts set to the lengths of the four lists, each cut to
    /// 16 bits.
    pub open spec fn counted_header(self) -> DnsHeader {
        DnsHeader {
            questions: self.questions.len() as u16,
            answers: self.answers.len() as u16,
            authoritative_entries: self.authorities.len() as u16,
            resource_entries: self.resources.len() as u16,
            ..self.header
        }
    }

    /// The message with the counts of its header set to the lengths of its lists.
    pub open spec fn counted(self) -> PacketView {
        PacketView { header: self.counted_header(), ..self }
    }

    /// What writing the message lays down: the header with the counts of the lists, the
    /// questions, the answers, the authorities and the additional records.
    pub open spec fn emit(self) -> Emit {
        Emit::of(self.counted_header().wire()).followed_by(
            questions_emit(self.questions).followed_by(
                records_emit(self.answers).followed_by(
                    records_emit(self.authorities).followed_by(records_emit(self.resources)),
                ),
            ),
        )
    }

    /// Reads a message at `at` in `buf`: the header, then as many questions, answers,
    /// authorities and additional records as the header counts.
    pub open spec fn parse(buf: Seq<u8>, at: int) -> Parsed<PacketView> {
        let header = DnsHeader::parse(buf, at);
        match header.result {
            Err(e) => Parsed::failed(e, header.cursor),
            Ok(h) => {
                let questions = parse_questions(buf, header.cursor, h.questions as nat);
                match questions.result {
                    Err(e) => Parsed::failed(e, questions.cursor),
                    Ok(qs) => {
                        let answers = parse_records(buf, questions.cursor, h.answers as nat);
                        match answers.result {
                            Err(e) => Parsed::failed(e, answers.cursor),
                            Ok(ans) => {
                                let authorities = parse_records(
                                    buf,
                                    answers.cursor,
                                    h.authoritative_entries as nat,
                                );
                                match authorities.result {
                                    Err(e) => Parsed::failed(e, authorities.cursor),
                                    Ok(auths) => {
                                        let resources = parse_records(
                                            buf,
                                            authorities.cursor,
                                            h.resource_entries as nat,
                                        );
                                        match resources.result {
                                            Err(e) => Parsed::failed(e, resources.cursor),
                                            Ok(res) => Parsed::done(
                                                PacketView {
                                                    header: h,
                                                    questions: qs,
                                                    answers: ans,
                                                    authorities: auths,
                                                    resources: res,
                                                },
                                                resources.cursor,
                                            ),
                                        }
                                    },
                                }
                            },
                        }
                    },
                }
            },
        }
    }
}

/// Reads `count` questions at the cursor.
fn read_questions(buffer: &mut PacketBuffer, count: u16) -> (r: crate::Result<Vec<DnsQuestion>>)
    ensures
        final(buffer).buffer == old(buffer).buffer,
        final(buffer).position == parse_questions(
            old(buffer).buffer@,
            old(buffer).position as int,
            count as nat,
        ).cursor,
        match r {
            Ok(questions) => parse_questions(
                old(buffer).buffer@,
                old(buffer).position as int,
                count as nat,
            ).result == Ok::<Seq<QuestionView>, DnsError>(question_views(questions@)),
            Err(e) => parse_questions(
                old(buffer).buffer@,
                old(buffer).position as int,
                count as nat,
            ).result == Err::<Seq<QuestionView>, DnsError>(e),
        },
{
    let ghost buf = buffer.buffer@;
    let ghost at = buffer.position as int;
    let mut questions: Vec<DnsQuestion> = Vec::new();
    let mut i: u16 = 0;
    assert(question_views(questions@) =~= Seq::<QuestionView>::empty());
    while i < count
        invariant
            i <= count,
            buffer.buffer@ == buf,
            buffer.buffer == old(buffer).buffer,
            at == old(buffer).position,
            parse_questions(buf, at, i as nat) == Parsed::done(
                question_views(questions@),
                buffer.position as int,
            ),
        decreases count - i,
    {
        proof {
            if parse_questions(buf, at, (i + 1) as nat).result is Err {
                lemma_parse_questions_failed(buf, at, (i + 1) as nat, count as nat);
            }
        }
        let mut question = DnsQuestion::new(String::new(), QueryType::UNKNOWN(0));
        question.read(buffer)?;
        proof {
            assert(forall|name: Seq<char>| Seq::<char>::empty() + name =~= name);
            assert(question_views(questions@.push(question)) =~= question_views(questions@).push(
                question@,
            ));
        }
        questions.push(question);
        i += 1;
    }
    Ok(questions)
}

/// Reads `count` records at the cursor.
fn read_records(buffer: &mut PacketBuffer, count: u16) -> (r: crate::Result<Vec<DnsRecord>>)
    ensures
        final(buffer).buffer == old(buffer).buffer,
        final(buffer).position == parse_records(
            old(buffer).buffer@,
            old(buffer).position as int,
            count as nat,
        ).cursor,
        match r {
            Ok(records) => parse_records(
                old(buffer).buffer@,
                old(buffer).position as int,
                count as nat,
            ).result == Ok::<Seq<RecordView>, DnsError>(record_views(records@)),
            Err(e) => parse_records(
                old(buffer).buffer@,
                old(buffer).position as int,
                count as nat,
            ).result == Err::<Seq<RecordView>, DnsError>(e),
        },
{
    let ghost buf = buffer.buffer@;
    let ghost at = buffer.position as int;
    let mut records: Vec<DnsRecord> = Vec::new();
    let mut i: u16 = 0;
    assert(record_views(records@) =~= Seq::<RecordView>::empty());
    while i < count
        invariant
            i <= count,
            buffer.buffer@ == buf,
            buffer.buffer == old(buffer).buffer,
            at == old(buffer).position,
            parse_records(buf, at, i as nat) == Parsed::done(
                record_views(records@),
                buffer.position as int,
            ),
        decreases count - i,
    {
        proof {
            if parse_records(buf, at, (i + 1) as nat).result is Err {
                lemma_parse_records_failed(buf, at, (i + 1) as nat, count as nat);
            }
        }
        let record = DnsRecord::read(buffer)?;
        proof {
            assert(record_views(records@.push(record)) =~= record_views(records@).push(record@));
        }
        records.push(record);
        i += 1;
    }
    Ok(records)
}

/// Writes `questions` at the cursor, one after the other.
fn write_questions(questions: &Vec<DnsQuestion>, buffer: &mut PacketBuffer) -> (r: crate::Result<
    (),
>)
    ensures
        r == old(buffer).outcome(questions_emit(question_views(questions@))),
        final(buffer).is_write_of(*old(buffer), questions_emit(question_views(questions@)).bytes),
{
    let ghost parts = question_views(questions@).map_values(|q: QuestionView| q.emit());
    let n = questions.len();
    let mut i: usize = 0;
    proof {
        lemma_write_nothing(*buffer);
        assert(parts.take(0) =~= Seq::<Emit>::empty());
    }
    while i < n
        invariant
            i <= n,
            n == questions@.len(),
            parts == question_views(questions@).map_values(|q: QuestionView| q.emit()),
            old(buffer).outcome(emit_all(parts.take(i as int))) is Ok,
            buffer.is_write_of(*old(buffer), emit_all(parts.take(i as int)).bytes),
        decreases n - i,
    {
        let ghost mid = *buffer;
        let ghost done = emit_all(parts.take(i as int));
        let ghost rest = emit_all(parts.skip(i + 1));
        let r = questions[i].write(buffer);
        proof {
            lemma_emit_all_at(parts, i as int);
            lemma_write_step(*old(buffer), mid, *buffer, done, parts[i as int], rest);
        }
        if r.is_err() {
            return r;
        }
        i += 1;
    }
    assert(parts.take(n as int) =~= parts);
    Ok(())
}

/// Writes `records` at the cursor, one after the other.
fn write_records(records: &Vec<DnsRecord>, buffer: &mut PacketBuffer) -> (r: crate::Result<()>)
    ensures
        r == old(buffer).outcome(records_emit(record_views(records@))),
        r is Ok ==> final(buffer).is_write_of(
            *old(buffer),
            records_emit(record_views(records@)).bytes,
        ),
        final(buffer).position == old(buffer).cursor_after(
            records_emit(record_views(records@)).bytes.len() as int,
        ),
        final(buffer).is_written_from(*old(buffer)),
{
    let ghost parts = record_views(records@).map_values(|r: RecordView| r.emit());
    let n = records.len();
    let mut i: usize = 0;
    proof {
        lemma_write_nothing(*buffer);
        assert(parts.take(0) =~= Seq::<Emit>::empty());
    }
    while i < n
        invariant
            i <= n,
            n == records@.len(),
            parts == record_views(records@).map_values(|r: RecordView| r.emit()),
            old(buffer).outcome(emit_all(parts.take(i as int))) is Ok,
            buffer.is_write_of(*old(buffer), emit_all(parts.take(i as int)).bytes),
        decreases n - i,
    {
        let ghost mid = *buffer;
        let ghost done = emit_all(parts.take(i as int));
        let ghost rest = emit_all(parts.skip(i + 1));
        let r = records[i].write(buffer);
        proof {
            lemma_emit_all_at(parts, i as int);
            lemma_outcome_step(*old(buffer), mid, done, parts[i as int], rest);
            lemma_write_is_written_from(*old(buffer), mid, done.bytes);
            lemma_is_written_from_twice(*old(buffer), mid, *buffer);
        }
        match r {
            Err(e) => {
                return Err(e);
            },
            Ok(_) => {
                proof {
                    lemma_write_step(*old(buffer), mid, *buffer, done, parts[i as int], rest);
                }
            },
        }
        i += 1;
    }
    proof {
        assert(parts.take(n as int) =~= parts);
        lemma_write_is_written_from(*old(buffer), *buffer, emit_all(parts).bytes);
    }
    Ok(())
}

impl DnsPacket {
    /// A message with a header of zeros and four empty lists.
    pub fn new() -> (p: DnsPacket)
        ensures
            p.header == DnsHeader::new_spec(),
            p.questions@.len() == 0,
            p.answers@.len() == 0,
            p.authorities@.len() == 0,
            p.resources@.len() == 0,
    {
        DnsPacket {
            header: DnsHeader::new(),
            questions: Vec::new(),
            answers: Vec::new(),
            authorities: Vec::new(),
            resources: Vec::new(),
        }
    }

    /// Reads the message at the cursor: the header, then as many questions, answers,
    /// authorities and additional records as the header counts. In the message that is
    /// returned the counts of the header are the lengths of the lists. Where the reading
    /// fails, the cursor stays where it stopped.
    pub fn from_buffer(buffer: &mut PacketBuffer) -> (r: crate::Result<DnsPacket>)
        ensures
            final(buffer).buffer == old(buffer).buffer,
            final(buffer).position == PacketView::parse(
                old(buffer).buffer@,
                old(buffer).position as int,
            ).cursor,
            match r {
                Ok(packet) => PacketView::parse(
                    old(buffer).buffer@,
                    old(buffer).position as int,
                ).result == Ok::<PacketView, DnsError>(packet@) && packet@.counts_match(),
                Err(e) => PacketView::parse(
                    old(buffer).buffer@,
                    old(buffer).position as int,
                ).result == Err::<PacketView, DnsError>(e),
            },
    {
        proof {
            lemma_parsed_counts(buffer.buffer@, buffer.position as int);
        }
        let mut result = DnsPacket::new();
        result.header.read(buffer)?;

        result.questions = read_questions(buffer, result.header.questions)?;
        result.answers = read_records(buffer, result.header.answers)?;
        result.authorities = read_records(buffer, result.header.authoritative_entries)?;
        result.resources = read_records(buffer, result.header.resource_entries)?;

        Ok(result)
    }

    /// Sets the counts of the header to the lengths of the lists, each cut to 16 bits, and
    /// writes the message at the cursor. Fails in front of a label of more than 52 bytes,
    /// or where the buffer ends; the cursor stays where the writing stopped, and no byte
    /// has changed but between where the cursor stood and where it stands.
    pub fn write(&mut self, buffer: &mut PacketBuffer) -> (r: crate::Result<()>)
        ensures
            final(self)@ == old(self)@.counted(),
            r == old(buffer).outcome(old(self)@.emit()),
            r is Ok ==> final(buffer).is_write_of(*old(buffer), old(self)@.emit().bytes),
            final(buffer).position == old(buffer).cursor_after(
                old(self)@.emit().bytes.len() as int,
            ),
            final(buffer).is_written_from(*old(buffer)),
    {
        self.header.questions = #[verifier::truncate] (self.questions.len() as u16);
        self.header.answers = #[verifier::truncate] (self.answers.len() as u16);
        self.header.authoritative_entries = #[verifier::truncate] (self.authorities.len() as u16);
        self.header.resource_entries = #[verifier::truncate] (self.resources.len() as u16);

        let ghost e0 = Emit::of(self.header.wire());
        let ghost e1 = questions_emit(question_views(self.questions@));
        let ghost e2 = records_emit(record_views(self.answers@));
        let ghost e3 = records_emit(record_views(self.authorities@));
        let ghost e4 = records_emit(record_views(self.resources@));
        let ghost mut done = Emit::nothing();
        proof {
            lemma_write_nothing(*buffer);
            lemma_followed_by_nothing(old(self)@.emit());
            lemma_followed_by_nothing(e4);
        }
        let ghost mid = *buffer;
        let r = self.header.write(buffer);
        proof {
            lemma_write_step(
                *old(buffer),
                mid,
                *buffer,
                done,
                e0,
                e1.followed_by(e2.followed_by(e3.followed_by(e4))),
            );
            done = done.followed_by(e0);
            lemma_write_is_written_from(*old(buffer), *buffer, done.bytes);
        }
        if r.is_err() {
            return r;
        }
        let ghost mid = *buffer;
        let r = write_questions(&self.questions, buffer);
        proof {
            lemma_write_is_written_from(mid, *buffer, e1.bytes);
            lemma_is_written_from_twice(*old(buffer), mid, *buffer);
            lemma_outcome_step(*old(buffer), mid, done, e1, e2.followed_by(e3.followed_by(e4)));
            if r is Ok {
                lemma_write_step(
                    *old(buffer),
                    mid,
                    *buffer,
                    done,
                    e1,
                    e2.followed_by(e3.followed_by(e4)),
                );
            }
            done = done.followed_by(e1);
        }
        if r.is_err() {
            return r;
        }
        let ghost mid = *buffer;
        let r = write_records(&self.answers, buffer);
        proof {
            lemma_is_written_from_twice(*old(buffer), mid, *buffer);
            lemma_outcome_step(*old(buffer), mid, done, e2, e3.followed_by(e4));
            if r is Ok {
                lemma_write_step(*old(buffer), mid, *buffer, done, e2, e3.followed_by(e4));
            }
            done = done.followed_by(e2);
        }
        if r.is_err() {
            return r;
        }
        let ghost mid = *buffer;
        let r = write_records(&self.authorities, buffer);
        proof {
            lemma_is_written_from_twice(*old(buffer), mid, *buffer);
            lemma_outcome_step(*old(buffer), mid, done, e3, e4);
            if r is Ok {
                lemma_write_step(*old(buffer), mid, *buffer, done, e3, e4);
            }
            done = done.followed_by(e3);
        }
        if r.is_err() {
            return r;
        }
        let ghost mid = *buffer;
        let r = write_records(&self.resources, buffer);
        proof {
            lemma_is_written_from_twice(*old(buffer), mid, *buffer);
            lemma_outcome_step(*old(buffer), mid, done, e4, Emit::nothing());
            if r is Ok {
                lemma_write_step(*old(buffer), mid, *buffer, done, e4, Emit::nothing());
            }
        }
        r
    }
}

} // verus!
