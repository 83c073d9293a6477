//! What holds between writing and reading: a message that was written is read back as it
//! was, but for the text of its names, which comes back as reading makes it.

use vstd::prelude::*;
use vstd::utf8::encode_utf8;
use crate::name::{
    labels_emit, labels_of, lemma_after_after, lemma_after_nothing, name_emit, name_text,
    parse_name, pointer_target, walk_name, Walk, MAX_JUMPS, MAX_LABEL_LENGTH,
};
use crate::protocol::{
    bit, parse_questions, parse_records, preamble_emit, questions_emit, records_emit,
    sized, DnsHeader, PacketView, QueryType, QuestionView, RecordView, ResultCode,
    CLASS_INTERNET,
};
use crate::wire::{
    be16, be32, holds, lemma_be16s_len, lemma_holds_at, lemma_holds_split, lemma_holds_u16,
    lemma_holds_u16s, lemma_holds_u32, u16_at, u32_at, Parsed,
};
use crate::buffer::{lemma_written_holds, PacketBuffer};
use crate::DnsError;

verus! {

/// Every one of `labels` has at least one byte and at most 52.
pub open spec fn plain_labels(labels: Seq<Seq<u8>>) -> bool {
    forall|i: int| 0 <= i < labels.len() ==> 0 < #[trigger] labels[i].len() <= MAX_LABEL_LENGTH
}

/// The name with the text `name` can be written and read back label by label: none of
/// its labels is empty, and none is longer than 52 bytes.
pub open spec fn plain_name(name: Seq<char>) -> bool {
    plain_labels(labels_of(encode_utf8(name)))
}

/// The text that reading makes of the name that was written for `name`.
pub open spec fn read_back(name: Seq<char>) -> Seq<char> {
    name_text(labels_of(encode_utf8(name)))
}

/// Labels of at least one and at most 52 bytes are written in full, and with the zero
/// byte that ends the name.
pub proof fn lemma_plain_labels_emit(labels: Seq<Seq<u8>>)
    requires
        plain_labels(labels),
    ensures
        !labels_emit(labels).label_too_long,
        labels_emit(labels).bytes.len() >= 1,
    decreases labels.len(),
{
    if labels.len() > 0 {
        assert(0 < labels[0].len() <= MAX_LABEL_LENGTH);
        assert forall|i: int| 0 <= i < labels.drop_first().len() implies 0
            < #[trigger] labels.drop_first()[i].len() <= MAX_LABEL_LENGTH by {
            assert(labels.drop_first()[i] == labels[i + 1]);
        }
        lemma_plain_labels_emit(labels.drop_first());
    }
}

/// A name that was written without a pointer is read back label by label, wherever it
/// stands and however many pointers led there, and the cursor ends behind its zero byte.
pub proof fn lemma_walk_written(buf: Seq<u8>, at: int, labels: Seq<Seq<u8>>, jumps: int)
    requires
        buf.len() == 512,
        0 <= jumps <= 5,
        plain_labels(labels),
        holds(buf, at, labels_emit(labels).bytes),
    ensures
        walk_name(buf, at, jumps) == (Walk {
            labels,
            moved: None,
            end: Ok(at + labels_emit(labels).bytes.len()),
            in_label: false,
        }),
    decreases labels.len(),
{
    let emit = labels_emit(labels);
    lemma_plain_labels_emit(labels);
    if labels.len() == 0 {
        lemma_holds_at(buf, at, emit.bytes, 0);
        assert(labels =~= Seq::<Seq<u8>>::empty());
    } else {
        let first = labels[0];
        let rest = labels.drop_first();
        assert(0 < first.len() <= MAX_LABEL_LENGTH);
        assert forall|i: int| 0 <= i < rest.len() implies 0 < #[trigger] rest[i].len()
            <= MAX_LABEL_LENGTH by {
            assert(rest[i] == labels[i + 1]);
        }
        lemma_plain_labels_emit(rest);
        let head = seq![first.len() as u8] + first;
        let tail = labels_emit(rest).bytes;
        assert(emit.bytes == head + tail);
        lemma_holds_split(buf, at, head, tail);
        lemma_holds_split(buf, at, seq![first.len() as u8], first);
        lemma_holds_at(buf, at, head, 0);
        assert(buf[at] == first.len() as u8);
        assert(buf.subrange(at + 1, at + 1 + buf[at]) == first);
        lemma_walk_written(buf, at + 1 + first.len(), rest, jumps);
        assert(seq![first] + rest =~= labels);
    }
}

/// A name that was written is read back with the text that reading makes of its labels.
pub proof fn lemma_name_round_trip(buf: Seq<u8>, at: int, name: Seq<char>)
    requires
        buf.len() == 512,
        plain_name(name),
        holds(buf, at, name_emit(encode_utf8(name)).bytes),
    ensures
        !name_emit(encode_utf8(name)).label_too_long,
        name_emit(encode_utf8(name)).bytes.len() >= 1,
        parse_name(buf, at) == Parsed::done(
            read_back(name),
            at + name_emit(encode_utf8(name)).bytes.len(),
        ),
{
    lemma_plain_labels_emit(labels_of(encode_utf8(name)));
    lemma_walk_written(buf, at, labels_of(encode_utf8(name)), 0);
}

/// Writing a name stops for a label exactly where one of its labels has more than 52
/// bytes.
pub proof fn lemma_label_limit(labels: Seq<Seq<u8>>)
    ensures
        labels_emit(labels).label_too_long <==> exists|i: int|
            0 <= i < labels.len() && (#[trigger] labels[i]).len() > MAX_LABEL_LENGTH,
    decreases labels.len(),
{
    if labels.len() > 0 {
        let rest = labels.drop_first();
        lemma_label_limit(rest);
        if labels[0].len() > MAX_LABEL_LENGTH {
        } else if labels_emit(rest).label_too_long {
            let i = choose|i: int|
                0 <= i < rest.len() && (#[trigger] rest[i]).len() > MAX_LABEL_LENGTH;
            assert(labels[i + 1] == rest[i]);
        } else {
            assert forall|i: int| 0 <= i < labels.len() implies !((#[trigger] labels[i]).len()
                > MAX_LABEL_LENGTH) by {
                if i > 0 {
                    assert(labels[i] == rest[i - 1]);
                }
            }
        }
    }
}

/// Where following `hops` pointers from `at` on leads: there, if that many pointers stand
/// in a row, each with both its bytes inside the buffer.
pub open spec fn chain_end(buf: Seq<u8>, at: int, hops: nat) -> Option<int>
    decreases hops,
{
    if hops == 0 {
        Some(at)
    } else if 0 <= at && at + 1 < 512 && buf[at] >= 0xC0 {
        chain_end(buf, pointer_target(buf[at], buf[at + 1]), (hops - 1) as nat)
    } else {
        None
    }
}

/// A name that starts with pointers in a row is the name at the end of the row, and the
/// cursor ends behind the first pointer.
pub proof fn lemma_walk_chain(buf: Seq<u8>, at: int, hops: nat, jumps: int)
    requires
        0 <= jumps,
        1 <= hops,
        jumps + hops <= MAX_JUMPS + 1,
        chain_end(buf, at, hops) is Some,
    ensures
        walk_name(buf, at, jumps) == walk_name(
            buf,
            chain_end(buf, at, hops)->0,
            jumps + hops,
        ).after(Seq::empty(), Some(at + 2)),
    decreases hops,
{
    if hops > 1 {
        let target = pointer_target(buf[at], buf[at + 1]);
        lemma_walk_chain(buf, target, (hops - 1) as nat, jumps + 1);
        lemma_after_after(
            walk_name(buf, chain_end(buf, at, hops)->0, jumps + hops),
            Seq::empty(),
            Some(target + 2),
            Seq::empty(),
            Some(at + 2),
        );
        assert(Seq::<Seq<u8>>::empty() + Seq::<Seq<u8>>::empty() =~= Seq::<Seq<u8>>::empty());
    } else {
        assert(chain_end(buf, pointer_target(buf[at], buf[at + 1]), 0) == Some(
            pointer_target(buf[at], buf[at + 1]),
        ));
    }
}

/// A name that starts with six pointers in a row is not read: the limit of five is
/// exceeded, whatever stands at the end of the row.
pub proof fn lemma_six_pointers_fail(buf: Seq<u8>, at: int)
    requires
        chain_end(buf, at, 6) is Some,
    ensures
        parse_name(buf, at).result == Err::<Seq<char>, DnsError>(DnsError::MaxJumps(MAX_JUMPS)),
        parse_name(buf, at).cursor == at + 2,
{
    lemma_walk_chain(buf, at, 6, 0);
}

/// The bytes of `labels` on the wire, each behind its length, without the zero byte that
/// ends a name.
pub open spec fn labels_wire(labels: Seq<Seq<u8>>) -> Seq<u8>
    decreases labels.len(),
{
    if labels.len() == 0 {
        Seq::empty()
    } else {
        (seq![labels[0].len() as u8] + labels[0]) + labels_wire(labels.drop_first())
    }
}

/// Labels that stand in front of more of a name are read one by one, and the name goes on
/// behind them.
pub proof fn lemma_walk_labels(buf: Seq<u8>, at: int, labels: Seq<Seq<u8>>, jumps: int)
    requires
        buf.len() == 512,
        0 <= jumps <= MAX_JUMPS,
        plain_labels(labels),
        holds(buf, at, labels_wire(labels)),
        at + labels_wire(labels).len() < 512,
    ensures
        walk_name(buf, at, jumps) == walk_name(buf, at + labels_wire(labels).len(), jumps).after(
            labels,
            None,
        ),
    decreases labels.len(),
{
    let rest_walk = walk_name(buf, at + labels_wire(labels).len(), jumps);
    if labels.len() == 0 {
        assert(labels =~= Seq::<Seq<u8>>::empty());
        lemma_after_nothing(rest_walk);
    } else {
        let first = labels[0];
        let rest = labels.drop_first();
        assert(0 < first.len() <= MAX_LABEL_LENGTH);
        assert forall|i: int| 0 <= i < rest.len() implies 0 < #[trigger] rest[i].len()
            <= MAX_LABEL_LENGTH by {
            assert(rest[i] == labels[i + 1]);
        }
        let head = seq![first.len() as u8] + first;
        lemma_holds_split(buf, at, head, labels_wire(rest));
        lemma_holds_split(buf, at, seq![first.len() as u8], first);
        lemma_holds_at(buf, at, head, 0);
        assert(buf[at] == first.len() as u8);
        assert(buf.subrange(at + 1, at + 1 + buf[at]) == first);
        lemma_walk_labels(buf, at + 1 + first.len(), rest, jumps);
        lemma_after_after(rest_walk, rest, None, seq![first], None);
        assert(seq![first] + rest =~= labels);
    }
}

/// A compressed name reads as the name it stands for.
///
/// Let labels, or none, stand at `at`, and behind them a row of one to five pointers
/// that leads to a name written without a pointer. Then reading at `at` gives the text of
/// the labels in front and of that name together, and the cursor ends behind the first
/// pointer. So two pointers to one name read as the same text.
pub proof fn lemma_compressed_name(
    buf: Seq<u8>,
    at: int,
    front: Seq<Seq<u8>>,
    hops: nat,
    back: Seq<Seq<u8>>,
)
    requires
        buf.len() == 512,
        plain_labels(front),
        holds(buf, at, labels_wire(front)),
        1 <= hops <= MAX_JUMPS,
        chain_end(buf, at + labels_wire(front).len(), hops) is Some,
        plain_labels(back),
        holds(
            buf,
            chain_end(buf, at + labels_wire(front).len(), hops)->0,
            labels_emit(back).bytes,
        ),
    ensures
        parse_name(buf, at) == Parsed::done(
            name_text(front + back),
            at + labels_wire(front).len() + 2,
        ),
{
    let pointer = at + labels_wire(front).len();
    let target = chain_end(buf, pointer, hops)->0;
    lemma_walk_labels(buf, at, front, 0);
    lemma_walk_chain(buf, pointer, hops, 0);
    lemma_walk_written(buf, target, back, hops as int);
    lemma_after_after(
        walk_name(buf, target, hops as int),
        Seq::empty(),
        Some(pointer + 2),
        front,
        None,
    );
    assert(front + Seq::<Seq<u8>>::empty() =~= front);
}

/// The type `qtype` is the one that its number stands for. This fails only for an
/// unknown type that carries the number of a known one.
pub open spec fn plain_type(qtype: QueryType) -> bool {
    QueryType::of_number(qtype.number()) == qtype
}

impl QuestionView {
    /// The question can be written and read back.
    pub open spec fn is_plain(self) -> bool {
        plain_name(self.name) && plain_type(self.qtype)
    }

    /// The question as reading makes it of what was written for it.
    pub open spec fn read_back(self) -> QuestionView {
        QuestionView { name: read_back(self.name), qtype: self.qtype }
    }
}

/// A question that was written is read back.
pub proof fn lemma_question_round_trip(buf: Seq<u8>, at: int, question: QuestionView)
    requires
        buf.len() == 512,
        question.is_plain(),
        holds(buf, at, question.emit().bytes),
    ensures
        !question.emit().label_too_long,
        question.emit().bytes.len() >= 1,
        QuestionView::parse(buf, at) == Parsed::done(
            question.read_back(),
            at + question.emit().bytes.len(),
        ),
{
    let name = name_emit(encode_utf8(question.name));
    lemma_plain_labels_emit(labels_of(encode_utf8(question.name)));
    let tail = be16(question.qtype.number()) + be16(CLASS_INTERNET);
    assert(question.emit().bytes == name.bytes + tail);
    lemma_holds_split(buf, at, name.bytes, tail);
    lemma_name_round_trip(buf, at, question.name);
    lemma_holds_split(
        buf,
        at + name.bytes.len(),
        be16(question.qtype.number()),
        be16(CLASS_INTERNET),
    );
    lemma_holds_u16(buf, at + name.bytes.len(), question.qtype.number());
}

/// The flags in the first byte are read back from it, as long as the opcode has no more
/// than four bits.
proof fn lemma_flags_high(rd: u8, tc: u8, aa: u8, opcode: u8, qr: u8)
    by (bit_vector)
    requires
        rd <= 1,
        tc <= 1,
        aa <= 1,
        opcode < 16,
        qr <= 1,
    ensures
        ({
            let a = rd | (tc << 1) | (aa << 2) | (opcode << 3) | (qr << 7);
            &&& (a & 0x01 != 0) == (rd == 1)
            &&& (a & 0x02 != 0) == (tc == 1)
            &&& (a & 0x04 != 0) == (aa == 1)
            &&& (a >> 3) & 0x0F == opcode
            &&& (a & 0x80 != 0) == (qr == 1)
        }),
{
}

/// The response code and the flags in the second byte are read back from it.
proof fn lemma_flags_low(code: u8, cd: u8, ad: u8, z: u8, ra: u8)
    by (bit_vector)
    requires
        code <= 5,
        cd <= 1,
        ad <= 1,
        z <= 1,
        ra <= 1,
    ensures
        ({
            let b = code | (cd << 4) | (ad << 5) | (z << 6) | (ra << 7);
            &&& b & 0x0F == code
            &&& (b & 0x10 != 0) == (cd == 1)
            &&& (b & 0x20 != 0) == (ad == 1)
            &&& (b & 0x40 != 0) == (z == 1)
            &&& (b & 0x80 != 0) == (ra == 1)
        }),
{
}

/// A header that was written is read back as it was, as long as its opcode has no more
/// than four bits.
pub proof fn lemma_header_round_trip(buf: Seq<u8>, at: int, header: DnsHeader)
    requires
        buf.len() == 512,
        header.opcode < 16,
        holds(buf, at, header.wire()),
    ensures
        DnsHeader::parse(buf, at) == Parsed::done(header, at + 12),
{
    lemma_holds_at(buf, at, header.wire(), 0);
    lemma_holds_at(buf, at, header.wire(), 1);
    lemma_holds_at(buf, at, header.wire(), 2);
    lemma_holds_at(buf, at, header.wire(), 3);
    lemma_holds_at(buf, at, header.wire(), 4);
    lemma_holds_at(buf, at, header.wire(), 5);
    lemma_holds_at(buf, at, header.wire(), 6);
    lemma_holds_at(buf, at, header.wire(), 7);
    lemma_holds_at(buf, at, header.wire(), 8);
    lemma_holds_at(buf, at, header.wire(), 9);
    lemma_holds_at(buf, at, header.wire(), 10);
    lemma_holds_at(buf, at, header.wire(), 11);
    lemma_flags_high(
        bit(header.recursion_desired),
        bit(header.truncated_message),
        bit(header.authoritative_answer),
        header.opcode,
        bit(header.response),
    );
    lemma_flags_low(
        header.rescode.number(),
        bit(header.checking_disabled),
        bit(header.authed_data),
        bit(header.z),
        bit(header.recursion_available),
    );
    assert(ResultCode::of_number(header.rescode.number()) == header.rescode);
}

impl RecordView {
    /// The record can be written and read back: it is of a known type, its names can be
    /// written and read back, and its address has the length of its type.
    pub open spec fn is_plain(self) -> bool {
        match self {
            RecordView::UNKNOWN { .. } => false,
            RecordView::A { domain, address, .. } => plain_name(domain) && address.len() == 4,
            RecordView::NS { domain, host, .. } => plain_name(domain) && plain_name(host),
            RecordView::CNAME { domain, host, .. } => plain_name(domain) && plain_name(host),
            RecordView::MX { domain, host, .. } => plain_name(domain) && plain_name(host),
            RecordView::AAAA { domain, address, .. } => plain_name(domain) && address.len() == 8,
        }
    }

    /// The record as reading makes it of what was written for it.
    pub open spec fn read_back(self) -> RecordView {
        match self {
            RecordView::UNKNOWN { domain, qtype, data_length, ttl } => RecordView::UNKNOWN {
                domain: read_back(domain),
                qtype,
                data_length,
                ttl,
            },
            RecordView::A { domain, address, ttl } => RecordView::A {
                domain: read_back(domain),
                address,
                ttl,
            },
            RecordView::NS { domain, host, ttl } => RecordView::NS {
                domain: read_back(domain),
                host: read_back(host),
                ttl,
            },
            RecordView::CNAME { domain, host, ttl } => RecordView::CNAME {
                domain: read_back(domain),
                host: read_back(host),
                ttl,
            },
            RecordView::MX { domain, priority, host, ttl } => RecordView::MX {
                domain: read_back(domain),
                priority,
                host: read_back(host),
                ttl,
            },
            RecordView::AAAA { domain, address, ttl } => RecordView::AAAA {
                domain: read_back(domain),
                address,
                ttl,
            },
        }
    }
}

/// The front of a record that was written is read back, and behind it the buffer holds
/// what was written behind it.
proof fn lemma_preamble_round_trip(
    buf: Seq<u8>,
    at: int,
    domain: Seq<char>,
    qtype: u16,
    ttl: u32,
    rest: Seq<u8>,
)
    requires
        buf.len() == 512,
        plain_name(domain),
        holds(buf, at, preamble_emit(domain, qtype, ttl).bytes + rest),
    ensures
        !preamble_emit(domain, qtype, ttl).label_too_long,
        preamble_emit(domain, qtype, ttl).bytes.len() == name_emit(encode_utf8(domain)).bytes.len()
            + 8,
        ({
            let cursor = at + name_emit(encode_utf8(domain)).bytes.len();
            &&& parse_name(buf, at) == Parsed::done(read_back(domain), cursor)
            &&& u16_at(buf, cursor) == qtype
            &&& u32_at(buf, cursor + 4) == ttl
            &&& holds(buf, cursor + 8, rest)
        }),
{
    let name = name_emit(encode_utf8(domain));
    let fixed = be16(qtype) + (be16(CLASS_INTERNET) + be32(ttl));
    lemma_plain_labels_emit(labels_of(encode_utf8(domain)));
    let front = preamble_emit(domain, qtype, ttl);
    assert(front.bytes == name.bytes + fixed);
    lemma_holds_split(buf, at, front.bytes, rest);
    lemma_holds_split(buf, at, name.bytes, fixed);
    lemma_name_round_trip(buf, at, domain);
    let c = at + name.bytes.len();
    lemma_holds_split(buf, c, be16(qtype), be16(CLASS_INTERNET) + be32(ttl));
    lemma_holds_split(buf, c + 2, be16(CLASS_INTERNET), be32(ttl));
    lemma_holds_u16(buf, c, qtype);
    lemma_holds_u32(buf, c + 4, ttl);
}

/// The data of a record of a known type that were written are read back.
proof fn lemma_data_round_trip(buf: Seq<u8>, at: int, record: RecordView, data_length: u16)
    requires
        buf.len() == 512,
        record.is_plain(),
        holds(buf, at, record.data_emit().bytes),
    ensures
        !record.data_emit().label_too_long,
        RecordView::parse_data(
            buf,
            at,
            read_back(record.domain()),
            record.qtype().number(),
            record.ttl(),
            data_length,
        ) == Parsed::done(record.read_back(), at + record.data_emit().bytes.len()),
{
    let data = record.data_emit();
    match record {
        RecordView::A { address, .. } => {
            assert(buf.subrange(at, at + 4) == address);
        },
        RecordView::AAAA { address, .. } => {
            lemma_be16s_len(address);
            lemma_holds_u16s(buf, at, address);
            assert(Seq::new(8, |i: int| u16_at(buf, at + 2 * i)) =~= address);
        },
        RecordView::NS { host, .. } => {
            lemma_name_round_trip(buf, at, host);
        },
        RecordView::CNAME { host, .. } => {
            lemma_name_round_trip(buf, at, host);
        },
        RecordView::MX { priority, host, .. } => {
            let name = name_emit(encode_utf8(host));
            lemma_plain_labels_emit(labels_of(encode_utf8(host)));
            assert(data.bytes == be16(priority) + name.bytes);
            lemma_holds_split(buf, at, be16(priority), name.bytes);
            lemma_holds_u16(buf, at, priority);
            lemma_name_round_trip(buf, at + 2, host);
        },
        RecordView::UNKNOWN { .. } => {},
    }
}

/// A record of a known type that was written is read back.
pub proof fn lemma_record_round_trip(buf: Seq<u8>, at: int, record: RecordView)
    requires
        buf.len() == 512,
        record.is_plain(),
        holds(buf, at, record.emit().bytes),
    ensures
        !record.emit().label_too_long,
        record.emit().bytes.len() >= 1,
        RecordView::parse(buf, at) == Parsed::done(
            record.read_back(),
            at + record.emit().bytes.len(),
        ),
{
    let number = record.qtype().number();
    let front = preamble_emit(record.domain(), number, record.ttl());
    let data = record.data_emit();
    let size = be16(data.bytes.len() as u16);
    lemma_plain_record_emit(record);
    lemma_plain_labels_emit(labels_of(encode_utf8(record.domain())));
    assert(!front.label_too_long);
    assert(!data.label_too_long) by {
        lemma_plain_data_emit(record);
    }
    assert(sized(data).bytes == size + data.bytes);
    assert(record.emit().bytes == front.bytes + (size + data.bytes));
    lemma_preamble_round_trip(buf, at, record.domain(), number, record.ttl(), size + data.bytes);
    let c = at + name_emit(encode_utf8(record.domain())).bytes.len();
    lemma_holds_split(buf, c + 8, size, data.bytes);
    lemma_data_round_trip(buf, c + 10, record, u16_at(buf, c + 8));
}

/// The data of a record that can be written and read back are written in full.
proof fn lemma_plain_data_emit(record: RecordView)
    requires
        record.is_plain(),
    ensures
        !record.data_emit().label_too_long,
{
    match record {
        RecordView::NS { host, .. } => {
            lemma_plain_labels_emit(labels_of(encode_utf8(host)));
        },
        RecordView::CNAME { host, .. } => {
            lemma_plain_labels_emit(labels_of(encode_utf8(host)));
        },
        RecordView::MX { host, .. } => {
            lemma_plain_labels_emit(labels_of(encode_utf8(host)));
        },
        _ => {},
    }
}

/// Every one of `questions` can be written and read back.
pub open spec fn plain_questions(questions: Seq<QuestionView>) -> bool {
    forall|i: int| 0 <= i < questions.len() ==> (#[trigger] questions[i]).is_plain()
}

/// Every one of `records` can be written and read back.
pub open spec fn plain_records(records: Seq<RecordView>) -> bool {
    forall|i: int| 0 <= i < records.len() ==> (#[trigger] records[i]).is_plain()
}

/// The questions as reading makes them of what was written for them.
pub open spec fn read_back_questions(questions: Seq<QuestionView>) -> Seq<QuestionView> {
    questions.map_values(|q: QuestionView| q.read_back())
}

/// The records as reading makes them of what was written for them.
pub open spec fn read_back_records(records: Seq<RecordView>) -> Seq<RecordView> {
    records.map_values(|r: RecordView| r.read_back())
}

/// Questions that were written are read back, in their order. Each takes at least one
/// byte.
pub proof fn lemma_questions_round_trip(buf: Seq<u8>, at: int, questions: Seq<QuestionView>)
    requires
        buf.len() == 512,
        plain_questions(questions),
        holds(buf, at, questions_emit(questions).bytes),
    ensures
        !questions_emit(questions).label_too_long,
        questions_emit(questions).bytes.len() >= questions.len(),
        parse_questions(buf, at, questions.len()) == Parsed::done(
            read_back_questions(questions),
            at + questions_emit(questions).bytes.len(),
        ),
    decreases questions.len(),
{
    let parts = questions.map_values(|q: QuestionView| q.emit());
    if questions.len() == 0 {
        assert(read_back_questions(questions) =~= Seq::<QuestionView>::empty());
    } else {
        let front = questions.drop_last();
        let last = questions.last();
        assert(parts.drop_last() =~= front.map_values(|q: QuestionView| q.emit()));
        assert(parts.last() == last.emit());
        assert(last.is_plain());
        assert forall|i: int| 0 <= i < front.len() implies (#[trigger] front[i]).is_plain() by {
            assert(front[i] == questions[i]);
        }
        lemma_plain_questions_emit(front);
        lemma_plain_labels_emit(labels_of(encode_utf8(last.name)));
        lemma_holds_split(buf, at, questions_emit(front).bytes, last.emit().bytes);
        lemma_questions_round_trip(buf, at, front);
        lemma_question_round_trip(buf, at + questions_emit(front).bytes.len(), last);
        assert(read_back_questions(questions) =~= read_back_questions(front).push(
            last.read_back(),
        ));
    }
}

/// Questions that can be written and read back are written in full.
pub proof fn lemma_plain_questions_emit(questions: Seq<QuestionView>)
    requires
        plain_questions(questions),
    ensures
        !questions_emit(questions).label_too_long,
    decreases questions.len(),
{
    let parts = questions.map_values(|q: QuestionView| q.emit());
    if questions.len() > 0 {
        let front = questions.drop_last();
        let last = questions.last();
        assert(parts.drop_last() =~= front.map_values(|q: QuestionView| q.emit()));
        assert(last.is_plain());
        assert forall|i: int| 0 <= i < front.len() implies (#[trigger] front[i]).is_plain() by {
            assert(front[i] == questions[i]);
        }
        lemma_plain_questions_emit(front);
        lemma_plain_labels_emit(labels_of(encode_utf8(last.name)));
    }
}

/// A record that can be written and read back is written in full.
pub proof fn lemma_plain_record_emit(record: RecordView)
    requires
        record.is_plain(),
    ensures
        !record.emit().label_too_long,
{
    lemma_plain_labels_emit(labels_of(encode_utf8(record.domain())));
    lemma_plain_data_emit(record);
}

/// Records that can be written and read back are written in full.
pub proof fn lemma_plain_records_emit(records: Seq<RecordView>)
    requires
        plain_records(records),
    ensures
        !records_emit(records).label_too_long,
    decreases records.len(),
{
    let parts = records.map_values(|r: RecordView| r.emit());
    if records.len() > 0 {
        let front = records.drop_last();
        let last = records.last();
        assert(parts.drop_last() =~= front.map_values(|r: RecordView| r.emit()));
        assert(last.is_plain());
        assert forall|i: int| 0 <= i < front.len() implies (#[trigger] front[i]).is_plain() by {
            assert(front[i] == records[i]);
        }
        lemma_plain_records_emit(front);
        lemma_plain_record_emit(last);
    }
}

/// Records of known types that were written are read back, in their order. Each takes
/// at least one byte.
pub proof fn lemma_records_round_trip(buf: Seq<u8>, at: int, records: Seq<RecordView>)
    requires
        buf.len() == 512,
        plain_records(records),
        holds(buf, at, records_emit(records).bytes),
    ensures
        !records_emit(records).label_too_long,
        records_emit(records).bytes.len() >= records.len(),
        parse_records(buf, at, records.len()) == Parsed::done(
            read_back_records(records),
            at + records_emit(records).bytes.len(),
        ),
    decreases records.len(),
{
    let parts = records.map_values(|r: RecordView| r.emit());
    if records.len() == 0 {
        assert(read_back_records(records) =~= Seq::<RecordView>::empty());
    } else {
        let front = records.drop_last();
        let last = records.last();
        assert(parts.drop_last() =~= front.map_values(|r: RecordView| r.emit()));
        assert(parts.last() == last.emit());
        assert(last.is_plain());
        assert forall|i: int| 0 <= i < front.len() implies (#[trigger] front[i]).is_plain() by {
            assert(front[i] == records[i]);
        }
        lemma_plain_records_emit(front);
        lemma_plain_record_emit(last);
        lemma_holds_split(buf, at, records_emit(front).bytes, last.emit().bytes);
        lemma_records_round_trip(buf, at, front);
        lemma_record_round_trip(buf, at + records_emit(front).bytes.len(), last);
        assert(read_back_records(records) =~= read_back_records(front).push(last.read_back()));
    }
}

impl PacketView {
    /// The message can be written and read back: the opcode has no more than four bits,
    /// and every question and record can be written and read back.
    pub open spec fn is_plain(self) -> bool {
        &&& self.header.opcode < 16
        &&& plain_questions(self.questions)
        &&& plain_records(self.answers)
        &&& plain_records(self.authorities)
        &&& plain_records(self.resources)
    }

    /// The message as reading makes it of what was written for it: the same, but for the
    /// text of its names.
    pub open spec fn read_back(self) -> PacketView {
        PacketView {
            header: self.header,
            questions: read_back_questions(self.questions),
            answers: read_back_records(self.answers),
            authorities: read_back_records(self.authorities),
            resources: read_back_records(self.resources),
        }
    }
}

impl PacketView {
    /// Where the questions start when the message is written at `at`.
    pub open spec fn questions_at(self, at: int) -> int {
        at + 12
    }

    /// Where the answers start when the message is written at `at`.
    pub open spec fn answers_at(self, at: int) -> int {
        self.questions_at(at) + questions_emit(self.questions).bytes.len()
    }

    /// Where the authorities start when the message is written at `at`.
    pub open spec fn authorities_at(self, at: int) -> int {
        self.answers_at(at) + records_emit(self.answers).bytes.len()
    }

    /// Where the additional records start when the message is written at `at`.
    pub open spec fn resources_at(self, at: int) -> int {
        self.authorities_at(at) + records_emit(self.authorities).bytes.len()
    }

    /// Where the message ends when it is written at `at`.
    pub open spec fn end_at(self, at: int) -> int {
        self.resources_at(at) + records_emit(self.resources).bytes.len()
    }
}

/// A buffer that holds a message holds its header and its four lists, each at its place.
proof fn lemma_packet_layout(buf: Seq<u8>, at: int, packet: PacketView)
    requires
        buf.len() == 512,
        packet.is_plain(),
        holds(buf, at, packet.emit().bytes),
    ensures
        !packet.emit().label_too_long,
        holds(buf, at, packet.counted_header().wire()),
        holds(buf, packet.questions_at(at), questions_emit(packet.questions).bytes),
        holds(buf, packet.answers_at(at), records_emit(packet.answers).bytes),
        holds(buf, packet.authorities_at(at), records_emit(packet.authorities).bytes),
        holds(buf, packet.resources_at(at), records_emit(packet.resources).bytes),
        packet.end_at(at) == at + packet.emit().bytes.len(),
{
    lemma_plain_questions_emit(packet.questions);
    lemma_plain_records_emit(packet.answers);
    lemma_plain_records_emit(packet.authorities);
    lemma_plain_records_emit(packet.resources);
    let b0 = packet.counted_header().wire();
    let b1 = questions_emit(packet.questions).bytes;
    let b2 = records_emit(packet.answers).bytes;
    let b3 = records_emit(packet.authorities).bytes;
    let b4 = records_emit(packet.resources).bytes;
    assert(b0.len() == 12);
    assert(packet.emit().bytes == b0 + (b1 + (b2 + (b3 + b4))));
    lemma_holds_split(buf, at, b0, b1 + (b2 + (b3 + b4)));
    lemma_holds_split(buf, at + 12, b1, b2 + (b3 + b4));
    lemma_holds_split(buf, at + 12 + b1.len(), b2, b3 + b4);
    lemma_holds_split(buf, at + 12 + b1.len() + b2.len(), b3, b4);
}

/// Reading what was written gives the message back.
///
/// Let a message hold records of known types only, names without an empty label and
/// without a label of more than 52 bytes, an opcode of four bits and no unknown type that
/// carries the number of a known one. Where a buffer holds what writing the message lays
/// down, reading there gives the message with the counts of its header set to the lengths
/// of its lists, which are those lengths exactly, and with the text of each name as
/// reading makes it. A message whose names have that text already, as names that were
/// read have, comes back as it is, with its counts set. The cursor ends behind the
/// message.
pub proof fn lemma_packet_round_trip(buf: Seq<u8>, at: int, packet: PacketView)
    requires
        buf.len() == 512,
        packet.is_plain(),
        holds(buf, at, packet.emit().bytes),
    ensures
        !packet.emit().label_too_long,
        packet.counted().header.questions == packet.questions.len(),
        packet.counted().header.answers == packet.answers.len(),
        packet.counted().header.authoritative_entries == packet.authorities.len(),
        packet.counted().header.resource_entries == packet.resources.len(),
        PacketView::parse(buf, at) == Parsed::done(
            packet.counted().read_back(),
            at + packet.emit().bytes.len(),
        ),
        packet.read_back() == packet ==> PacketView::parse(buf, at) == Parsed::done(
            packet.counted(),
            at + packet.emit().bytes.len(),
        ),
{
    lemma_packet_layout(buf, at, packet);
    let header = packet.counted_header();
    let c0 = packet.questions_at(at);
    let c1 = packet.answers_at(at);
    let c2 = packet.authorities_at(at);
    let c3 = packet.resources_at(at);
    let c4 = packet.end_at(at);
    lemma_header_round_trip(buf, at, header);
    lemma_questions_round_trip(buf, c0, packet.questions);
    lemma_records_round_trip(buf, c1, packet.answers);
    lemma_records_round_trip(buf, c2, packet.authorities);
    lemma_records_round_trip(buf, c3, packet.resources);
    assert(packet.questions.len() <= 512 && packet.answers.len() <= 512);
    assert(packet.authorities.len() <= 512 && packet.resources.len() <= 512);
    assert(header.questions as nat == packet.questions.len());
    assert(header.answers as nat == packet.answers.len());
    assert(header.authoritative_entries as nat == packet.authorities.len());
    assert(header.resource_entries as nat == packet.resources.len());
    assert(DnsHeader::parse(buf, at) == Parsed::done(header, c0));
    assert(parse_questions(buf, c0, header.questions as nat) == Parsed::done(
        read_back_questions(packet.questions),
        c1,
    ));
    assert(parse_records(buf, c1, header.answers as nat) == Parsed::done(
        read_back_records(packet.answers),
        c2,
    ));
    assert(parse_records(buf, c2, header.authoritative_entries as nat) == Parsed::done(
        read_back_records(packet.authorities),
        c3,
    ));
    assert(parse_records(buf, c3, header.resource_entries as nat) == Parsed::done(
        read_back_records(packet.resources),
        c4,
    ));
    assert(packet.counted().read_back() == (PacketView {
        header,
        questions: read_back_questions(packet.questions),
        answers: read_back_records(packet.answers),
        authorities: read_back_records(packet.authorities),
        resources: read_back_records(packet.resources),
    }));
}

/// Writing a message and reading it where it was written gives the message back.
///
/// Let `after` be the buffer that `before` has become by writing the message `packet`
/// with success, and let the message be one that can be written and read back. Then
/// reading in `after`, from where the cursor stood in `before`, gives the message with its
/// counts set and with the text of its names as reading makes it, and the cursor ends
/// where it stands in `after`.
pub proof fn lemma_write_read_round_trip(
    packet: PacketView,
    before: PacketBuffer,
    after: PacketBuffer,
)
    requires
        packet.is_plain(),
        before.outcome(packet.emit()) is Ok,
        after.is_write_of(before, packet.emit().bytes),
    ensures
        PacketView::parse(after.buffer@, before.position as int) == Parsed::done(
            packet.counted().read_back(),
            after.position as int,
        ),
        packet.read_back() == packet ==> PacketView::parse(after.buffer@, before.position as int)
            == Parsed::done(packet.counted(), after.position as int),
{
    assert(packet.counted_header().wire().len() == 12);
    assert(packet.emit().bytes.len() >= 12);
    lemma_written_holds(before, after, packet.emit().bytes);
    lemma_packet_round_trip(after.buffer@, before.position as int, packet);
}

/// Questions that were read are as many as were asked for.
pub proof fn lemma_parsed_questions_len(buf: Seq<u8>, at: int, count: nat)
    ensures
        parse_questions(buf, at, count).result matches Ok(questions) ==> questions.len() == count,
    decreases count,
{
    if count > 0 {
        lemma_parsed_questions_len(buf, at, (count - 1) as nat);
    }
}

/// Records that were read are as many as were asked for.
pub proof fn lemma_parsed_records_len(buf: Seq<u8>, at: int, count: nat)
    ensures
        parse_records(buf, at, count).result matches Ok(records) ==> records.len() == count,
    decreases count,
{
    if count > 0 {
        lemma_parsed_records_len(buf, at, (count - 1) as nat);
    }
}

impl PacketView {
    /// The four counts of the header are the lengths of the four lists.
    pub open spec fn counts_match(self) -> bool {
        &&& self.header.questions == self.questions.len()
        &&& self.header.answers == self.answers.len()
        &&& self.header.authoritative_entries == self.authorities.len()
        &&& self.header.resource_entries == self.resources.len()
    }
}

/// In a message that was read, the counts of the header are the lengths of the lists.
pub proof fn lemma_parsed_counts(buf: Seq<u8>, at: int)
    ensures
        PacketView::parse(buf, at).result matches Ok(packet) ==> packet.counts_match(),
{
    let header = DnsHeader::parse(buf, at);
    if let Ok(h) = header.result {
        let questions = parse_questions(buf, header.cursor, h.questions as nat);
        lemma_parsed_questions_len(buf, header.cursor, h.questions as nat);
        let answers = parse_records(buf, questions.cursor, h.answers as nat);
        lemma_parsed_records_len(buf, questions.cursor, h.answers as nat);
        let authorities = parse_records(buf, answers.cursor, h.authoritative_entries as nat);
        lemma_parsed_records_len(buf, answers.cursor, h.authoritative_entries as nat);
        lemma_parsed_records_len(buf, authorities.cursor, h.resource_entries as nat);
    }
}

} // verus!
