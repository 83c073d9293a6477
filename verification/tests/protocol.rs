use tarnish_dns::buffer::PacketBuffer;
use tarnish_dns::protocol::{DnsHeader, DnsPacket, DnsQuestion, DnsRecord, QueryType, ResultCode};
use tarnish_dns::DnsError;

fn filled(bytes: &[u8]) -> PacketBuffer {
    let mut buffer = PacketBuffer::new();
    buffer.buffer[..bytes.len()].copy_from_slice(bytes);
    buffer
}

fn sample_records() -> Vec<DnsRecord> {
    vec![
        DnsRecord::A { domain: "a.example.com".to_string(), address: [192, 0, 2, 7], ttl: 300 },
        DnsRecord::NS {
            domain: "example.com".to_string(),
            host: "ns1.example.com".to_string(),
            ttl: 86400,
        },
        DnsRecord::CNAME {
            domain: "www.example.com".to_string(),
            host: "a.example.com".to_string(),
            ttl: 60,
        },
        DnsRecord::MX {
            domain: "example.com".to_string(),
            priority: 10,
            host: "mail.example.com".to_string(),
            ttl: 3600,
        },
        DnsRecord::AAAA {
            domain: "a.example.com".to_string(),
            address: [0x2001, 0x0db8, 0, 0, 0, 0xff00, 0x0042, 0x8329],
            ttl: 0xFFFF_FFFF,
        },
    ]
}

#[test]
fn result_codes_by_number() {
    assert_eq!(ResultCode::from_number(0), ResultCode::NOERROR);
    assert_eq!(ResultCode::from_number(1), ResultCode::FORMERR);
    assert_eq!(ResultCode::from_number(2), ResultCode::SERVFAIL);
    assert_eq!(ResultCode::from_number(3), ResultCode::NXDOMAIN);
    assert_eq!(ResultCode::from_number(4), ResultCode::NOTIMP);
    assert_eq!(ResultCode::from_number(5), ResultCode::REFUSED);
    assert_eq!(ResultCode::from_number(6), ResultCode::NOERROR);
    assert_eq!(ResultCode::from_number(15), ResultCode::NOERROR);
    assert_eq!(ResultCode::from_number(255), ResultCode::NOERROR);
    for n in 0..6u8 {
        assert_eq!(ResultCode::from_number(n).to_number(), n);
    }
}

#[test]
fn query_types_by_number() {
    assert_eq!(QueryType::A.to_number(), 1);
    assert_eq!(QueryType::NS.to_number(), 2);
    assert_eq!(QueryType::CNAME.to_number(), 5);
    assert_eq!(QueryType::MX.to_number(), 15);
    assert_eq!(QueryType::AAAA.to_number(), 28);
    assert_eq!(QueryType::UNKNOWN(999).to_number(), 999);
    assert_eq!(QueryType::from_number(1), QueryType::A);
    assert_eq!(QueryType::from_number(2), QueryType::NS);
    assert_eq!(QueryType::from_number(5), QueryType::CNAME);
    assert_eq!(QueryType::from_number(15), QueryType::MX);
    assert_eq!(QueryType::from_number(28), QueryType::AAAA);
    assert_eq!(QueryType::from_number(0), QueryType::UNKNOWN(0));
    assert_eq!(QueryType::from_number(999), QueryType::UNKNOWN(999));
    // an unknown type with the number of a known one does not come back
    assert_eq!(QueryType::from_number(QueryType::UNKNOWN(1).to_number()), QueryType::A);
}

#[test]
fn a_new_header_is_all_zero() {
    let header = DnsHeader::new();
    assert_eq!(header.id, 0);
    assert!(!header.recursion_desired && !header.truncated_message);
    assert!(!header.authoritative_answer && !header.response);
    assert_eq!(header.opcode, 0);
    assert_eq!(header.rescode, ResultCode::NOERROR);
    assert!(!header.checking_disabled && !header.authed_data && !header.z);
    assert!(!header.recursion_available);
    assert_eq!(
        (header.questions, header.answers, header.authoritative_entries, header.resource_entries),
        (0, 0, 0, 0)
    );
    let mut buffer = filled(&[0xFF; 16]);
    assert_eq!(header.write(&mut buffer), Ok(()));
    assert_eq!(buffer.position(), 12);
    assert_eq!(&buffer.buffer[..13], &[0, 0, 0, 0, 0, 0, 0, 0, 0, 0, 0, 0, 0xFF]);
}

#[test]
fn each_flag_has_its_bit() {
    let bits: [(fn(&mut DnsHeader), u8, u8); 8] = [
        (|h| h.recursion_desired = true, 0x01, 0),
        (|h| h.truncated_message = true, 0x02, 0),
        (|h| h.authoritative_answer = true, 0x04, 0),
        (|h| h.response = true, 0x80, 0),
        (|h| h.checking_disabled = true, 0, 0x10),
        (|h| h.authed_data = true, 0, 0x20),
        (|h| h.z = true, 0, 0x40),
        (|h| h.recursion_available = true, 0, 0x80),
    ];
    for (set, high, low) in bits {
        let mut header = DnsHeader::new();
        set(&mut header);
        let mut buffer = PacketBuffer::new();
        header.write(&mut buffer).unwrap();
        assert_eq!((buffer.buffer[2], buffer.buffer[3]), (high, low));
        buffer.seek(0).unwrap();
        let mut back = DnsHeader::new();
        assert_eq!(back.read(&mut buffer), Ok(()));
        assert_eq!(back, header);
    }
}

#[test]
fn a_header_is_laid_out_bit_by_bit() {
    let header = DnsHeader {
        id: 0xBEEF,
        recursion_desired: true,
        truncated_message: false,
        authoritative_answer: true,
        opcode: 0b1010,
        response: true,
        rescode: ResultCode::NXDOMAIN,
        checking_disabled: true,
        authed_data: false,
        z: false,
        recursion_available: true,
        questions: 0x0102,
        answers: 0x0304,
        authoritative_entries: 0x0506,
        resource_entries: 0x0708,
    };
    let mut buffer = PacketBuffer::new();
    assert_eq!(header.write(&mut buffer), Ok(()));
    assert_eq!(buffer.position(), 12);
    assert_eq!(
        &buffer.buffer[..12],
        &[0xBE, 0xEF, 0b1101_0101, 0b1001_0011, 1, 2, 3, 4, 5, 6, 7, 8]
    );
    buffer.seek(0).unwrap();
    let mut back = DnsHeader::new();
    assert_eq!(back.read(&mut buffer), Ok(()));
    assert_eq!(buffer.position(), 12);
    assert_eq!(back, header);
}

#[test]
fn an_opcode_of_more_than_four_bits_runs_over() {
    let mut header = DnsHeader::new();
    header.opcode = 16;
    let mut buffer = PacketBuffer::new();
    header.write(&mut buffer).unwrap();
    assert_eq!(buffer.buffer[2], 0x80);
    buffer.seek(0).unwrap();
    let mut back = DnsHeader::new();
    back.read(&mut buffer).unwrap();
    assert_eq!(back.opcode, 0);
    assert!(back.response);

    header.opcode = 0xFF;
    let mut buffer = PacketBuffer::new();
    header.write(&mut buffer).unwrap();
    assert_eq!(buffer.buffer[2], 0xF8);
}

#[test]
fn an_unknown_response_code_is_read_as_no_error() {
    let mut buffer = filled(&[0, 1, 0, 0x0F, 0, 0, 0, 0, 0, 0, 0, 0]);
    let mut header = DnsHeader::new();
    assert_eq!(header.read(&mut buffer), Ok(()));
    assert_eq!(header.rescode, ResultCode::NOERROR);
    let mut buffer = filled(&[0, 1, 0, 0x05, 0, 0, 0, 0, 0, 0, 0, 0]);
    assert_eq!(header.read(&mut buffer), Ok(()));
    assert_eq!(header.rescode, ResultCode::REFUSED);
}

#[test]
fn a_header_needs_twelve_bytes() {
    let mut buffer = PacketBuffer::new();
    buffer.seek(500).unwrap();
    let mut header = DnsHeader::new();
    assert_eq!(header.read(&mut buffer), Ok(()));
    assert_eq!(buffer.position(), 512);
    buffer.seek(501).unwrap();
    assert_eq!(header.read(&mut buffer), Err(DnsError::BufferEnd));
    buffer.seek(500).unwrap();
    assert_eq!(header.write(&mut buffer), Ok(()));
    buffer.seek(501).unwrap();
    assert_eq!(header.write(&mut buffer), Err(DnsError::BufferEnd));
    assert_eq!(buffer.position(), 512);
}

#[test]
fn a_question_is_written_with_type_and_class() {
    let question = DnsQuestion::new("ab.c".to_string(), QueryType::AAAA);
    assert_eq!(question.name, "ab.c");
    assert_eq!(question.qtype, QueryType::AAAA);
    let mut buffer = PacketBuffer::new();
    assert_eq!(question.write(&mut buffer), Ok(()));
    assert_eq!(buffer.position(), 10);
    assert_eq!(&buffer.buffer[..10], &[2, b'a', b'b', 1, b'c', 0, 0, 28, 0, 1]);
    buffer.seek(0).unwrap();
    let mut back = DnsQuestion::new(String::new(), QueryType::UNKNOWN(0));
    assert_eq!(back.read(&mut buffer), Ok(()));
    assert_eq!(back, question);
    assert_eq!(buffer.position(), 10);
}

#[test]
fn a_question_reads_any_class_and_appends_to_its_name() {
    let mut buffer = filled(&[1, b'X', 0, 0x03, 0xE7, 0xAB, 0xCD]);
    let mut question = DnsQuestion::new("pre.".to_string(), QueryType::A);
    assert_eq!(question.read(&mut buffer), Ok(()));
    assert_eq!(question.name, "pre.x");
    assert_eq!(question.qtype, QueryType::UNKNOWN(999));
    assert_eq!(buffer.position(), 7);
}

#[test]
fn a_question_fails_as_its_name_does() {
    let question = DnsQuestion::new("x".repeat(53), QueryType::A);
    let mut buffer = PacketBuffer::new();
    assert_eq!(question.write(&mut buffer), Err(DnsError::LabelExceedsMaxLengthSize));
    let question = DnsQuestion::new("abc".to_string(), QueryType::A);
    buffer.seek(504).unwrap();
    // the name has room, the class has not
    assert_eq!(question.write(&mut buffer), Err(DnsError::BufferEnd));
    assert_eq!(buffer.position(), 512);
    buffer.seek(503).unwrap();
    assert_eq!(question.write(&mut buffer), Ok(()));
    let mut back = DnsQuestion::new(String::new(), QueryType::UNKNOWN(0));
    buffer.seek(504).unwrap();
    assert_eq!(back.read(&mut buffer), Err(DnsError::BufferEnd));
    let mut buffer = filled(&[0xC0, 0x00]);
    assert_eq!(back.read(&mut buffer), Err(DnsError::MaxJumps(5)));
}

#[test]
fn an_address_record_is_written_with_its_length() {
    let record = DnsRecord::A { domain: "ab".to_string(), address: [10, 20, 30, 40], ttl: 0x01020304 };
    let mut buffer = filled(&[0xEE; 32]);
    buffer.seek(1).unwrap();
    assert_eq!(record.write(&mut buffer), Ok(18));
    assert_eq!(buffer.position(), 19);
    assert_eq!(
        &buffer.buffer[..20],
        &[0xEE, 2, b'a', b'b', 0, 0, 1, 0, 1, 1, 2, 3, 4, 0, 4, 10, 20, 30, 40, 0xEE]
    );
    buffer.seek(1).unwrap();
    assert_eq!(DnsRecord::read(&mut buffer), Ok(record));
    assert_eq!(buffer.position(), 19);
}

#[test]
fn an_ipv6_record_is_written_group_by_group() {
    let record = DnsRecord::AAAA {
        domain: "v6".to_string(),
        address: [0x2001, 0x0db8, 0, 1, 2, 0xff00, 0x0042, 0x8329],
        ttl: 7,
    };
    let mut buffer = PacketBuffer::new();
    assert_eq!(record.write(&mut buffer), Ok(30));
    assert_eq!(&buffer.buffer[..14], &[2, b'v', b'6', 0, 0, 28, 0, 1, 0, 0, 0, 7, 0, 16]);
    assert_eq!(
        &buffer.buffer[14..30],
        &[0x20, 0x01, 0x0d, 0xb8, 0, 0, 0, 1, 0, 2, 0xff, 0, 0, 0x42, 0x83, 0x29]
    );
    buffer.seek(0).unwrap();
    assert_eq!(DnsRecord::read(&mut buffer), Ok(record));
    assert_eq!(buffer.position(), 30);
}

#[test]
fn the_length_of_a_host_name_is_filled_in_afterwards() {
    let record = DnsRecord::NS { domain: "a".to_string(), host: "ns.a".to_string(), ttl: 1 };
    let mut buffer = PacketBuffer::new();
    assert_eq!(record.write(&mut buffer), Ok(19));
    assert_eq!(
        &buffer.buffer[..19],
        &[1, b'a', 0, 0, 2, 0, 1, 0, 0, 0, 1, 0, 6, 2, b'n', b's', 1, b'a', 0]
    );
    buffer.seek(0).unwrap();
    assert_eq!(DnsRecord::read(&mut buffer), Ok(record));

    let record = DnsRecord::CNAME { domain: "a".to_string(), host: "b".to_string(), ttl: 1 };
    let mut buffer = PacketBuffer::new();
    assert_eq!(record.write(&mut buffer), Ok(16));
    assert_eq!(&buffer.buffer[3..16], &[0, 5, 0, 1, 0, 0, 0, 1, 0, 3, 1, b'b', 0]);

    let record =
        DnsRecord::MX { domain: "a".to_string(), priority: 0x0A0B, host: "mx.a".to_string(), ttl: 1 };
    let mut buffer = PacketBuffer::new();
    assert_eq!(record.write(&mut buffer), Ok(21));
    assert_eq!(
        &buffer.buffer[3..21],
        &[0, 15, 0, 1, 0, 0, 0, 1, 0, 8, 0x0A, 0x0B, 2, b'm', b'x', 1, b'a', 0]
    );
    buffer.seek(0).unwrap();
    assert_eq!(DnsRecord::read(&mut buffer), Ok(record));
    assert_eq!(buffer.position(), 21);
}

#[test]
fn a_record_of_an_unknown_type_is_passed_over() {
    // name "x", type 999, class 1, ttl 77, length 10, ten bytes of data, then a marker
    let mut bytes = vec![1, b'x', 0, 0x03, 0xE7, 0, 1, 0, 0, 0, 77, 0, 10];
    bytes.extend_from_slice(&[0xAA; 10]);
    bytes.push(0x55);
    let mut buffer = filled(&bytes);
    let record = DnsRecord::read(&mut buffer);
    assert_eq!(
        record,
        Ok(DnsRecord::UNKNOWN { domain: "x".to_string(), qtype: 999, data_length: 10, ttl: 77 })
    );
    // three bytes of name, ten of the fixed part, ten of data
    assert_eq!(buffer.position(), 3 + 10 + 10);
    assert_eq!(buffer.read(), Ok(0x55));
}

#[test]
fn the_data_of_an_unknown_type_may_reach_past_the_buffer() {
    let mut buffer = filled(&[0, 0, 200, 0, 1, 0, 0, 0, 0, 0xFF, 0xFF]);
    assert_eq!(
        DnsRecord::read(&mut buffer),
        Ok(DnsRecord::UNKNOWN { domain: String::new(), qtype: 200, data_length: 0xFFFF, ttl: 0 })
    );
    assert_eq!(buffer.position(), 11 + 0xFFFF);
    assert_eq!(buffer.read(), Err(DnsError::BufferEnd));
}

// A record of an unknown type is read but not written back: its data were not kept, and
// writing it lays down no byte. Reading is one way for such a record.
#[test]
fn writing_a_record_of_an_unknown_type_writes_nothing() {
    let record = DnsRecord::UNKNOWN { domain: "x".to_string(), qtype: 999, data_length: 10, ttl: 1 };
    let mut buffer = filled(&[9; 4]);
    buffer.seek(2).unwrap();
    assert_eq!(record.write(&mut buffer), Ok(0));
    assert_eq!(buffer.position(), 2);
    assert_eq!(&buffer.buffer[..5], &[9, 9, 9, 9, 0]);
    buffer.seek(900).unwrap();
    assert_eq!(record.write(&mut buffer), Ok(0));
}

#[test]
fn the_declared_length_of_a_known_type_is_not_used() {
    // an address record that declares 10 bytes of data: four are read
    let mut buffer = filled(&[0, 0, 1, 0, 1, 0, 0, 0, 5, 0, 10, 1, 2, 3, 4, 0x99]);
    assert_eq!(
        DnsRecord::read(&mut buffer),
        Ok(DnsRecord::A { domain: String::new(), address: [1, 2, 3, 4], ttl: 5 })
    );
    assert_eq!(buffer.position(), 15);
}

#[test]
fn a_record_fails_where_the_buffer_ends() {
    let record = DnsRecord::A { domain: "ab".to_string(), address: [1, 2, 3, 4], ttl: 1 };
    let mut buffer = PacketBuffer::new();
    buffer.seek(512 - 18).unwrap();
    assert_eq!(record.write(&mut buffer), Ok(18));
    buffer.seek(512 - 17).unwrap();
    assert_eq!(record.write(&mut buffer), Err(DnsError::BufferEnd));
    let record = DnsRecord::MX { domain: "ab".to_string(), priority: 1, host: "c".to_string(), ttl: 1 };
    buffer.seek(512 - 19).unwrap();
    assert_eq!(record.write(&mut buffer), Ok(19));
    buffer.seek(512 - 18).unwrap();
    assert_eq!(record.write(&mut buffer), Err(DnsError::BufferEnd));
    let record =
        DnsRecord::NS { domain: "ab".to_string(), host: "y".repeat(53), ttl: 1 };
    buffer.seek(0).unwrap();
    assert_eq!(record.write(&mut buffer), Err(DnsError::LabelExceedsMaxLengthSize));
    buffer.seek(512 - 14).unwrap();
    assert_eq!(record.write(&mut buffer), Err(DnsError::LabelExceedsMaxLengthSize));
    buffer.seek(512 - 13).unwrap();
    assert_eq!(record.write(&mut buffer), Err(DnsError::BufferEnd));

    // the root name and the ten bytes behind it, with and without room
    let mut buffer = PacketBuffer::new();
    buffer.seek(512 - 10).unwrap();
    assert_eq!(DnsRecord::read(&mut buffer), Err(DnsError::BufferEnd));
    buffer.seek(512 - 11).unwrap();
    assert_eq!(
        DnsRecord::read(&mut buffer),
        Ok(DnsRecord::UNKNOWN { domain: String::new(), qtype: 0, data_length: 0, ttl: 0 })
    );
    // an address of which the last byte is missing
    buffer.buffer[512 - 12] = 1;
    buffer.seek(512 - 14).unwrap();
    assert_eq!(DnsRecord::read(&mut buffer), Err(DnsError::BufferEnd));
}

#[test]
fn a_new_packet_is_empty() {
    let packet = DnsPacket::new();
    assert_eq!(packet.header, DnsHeader::new());
    assert!(packet.questions.is_empty());
    assert!(packet.answers.is_empty());
    assert!(packet.authorities.is_empty());
    assert!(packet.resources.is_empty());
}

#[test]
fn a_query_is_encoded_and_decoded() {
    let mut packet = DnsPacket::new();
    packet.header.id = 42;
    packet.header.questions = 1;
    packet.header.recursion_desired = true;
    packet.questions.push(DnsQuestion::new("www.github.com".to_string(), QueryType::MX));

    let mut buffer = PacketBuffer::new();
    assert_eq!(packet.write(&mut buffer), Ok(()));
    // header, name as labels, type, class
    let name_length = 1 + 3 + 1 + 6 + 1 + 3 + 1;
    assert_eq!(buffer.position(), 12 + name_length + 2 + 2);
    assert_eq!(buffer.position(), 32);
    assert_eq!(&buffer.buffer[..12], &[0, 42, 1, 0, 0, 1, 0, 0, 0, 0, 0, 0]);
    assert_eq!(&buffer.buffer[28..32], &[0, 15, 0, 1]);

    let flags = [buffer.buffer[2], buffer.buffer[3]];
    buffer.seek(0).unwrap();
    let decoded = DnsPacket::from_buffer(&mut buffer).unwrap();
    assert_eq!(buffer.position(), 32);
    assert_eq!(decoded.header, packet.header);
    assert_eq!(decoded.questions, vec![DnsQuestion::new("www.github.com".to_string(), QueryType::MX)]);
    assert_eq!(decoded, packet);

    let mut again = PacketBuffer::new();
    let mut decoded = decoded;
    decoded.write(&mut again).unwrap();
    assert_eq!([again.buffer[2], again.buffer[3]], flags);
    assert_eq!(&again.buffer[..], &buffer.buffer[..]);
}

#[test]
fn a_packet_with_every_kind_of_record_round_trips() {
    let mut packet = DnsPacket::new();
    packet.header.id = 0xABCD;
    packet.header.response = true;
    packet.header.opcode = 15;
    packet.header.rescode = ResultCode::SERVFAIL;
    packet.header.recursion_available = true;
    packet.header.authed_data = true;
    packet.questions.push(DnsQuestion::new("example.com".to_string(), QueryType::A));
    packet.questions.push(DnsQuestion::new("example.org".to_string(), QueryType::UNKNOWN(255)));
    let records = sample_records();
    packet.answers = records.clone();
    packet.authorities = vec![records[1].clone(), records[3].clone()];
    packet.resources = vec![records[4].clone()];

    let mut buffer = PacketBuffer::new();
    assert_eq!(packet.write(&mut buffer), Ok(()));
    assert_eq!(
        (
            packet.header.questions,
            packet.header.answers,
            packet.header.authoritative_entries,
            packet.header.resource_entries
        ),
        (2, 5, 2, 1)
    );
    let end = buffer.position();
    buffer.seek(0).unwrap();
    assert_eq!(DnsPacket::from_buffer(&mut buffer), Ok(packet));
    assert_eq!(buffer.position(), end);
}

#[test]
fn a_packet_round_trips_at_any_position() {
    let mut packet = DnsPacket::new();
    packet.questions.push(DnsQuestion::new("a.b".to_string(), QueryType::NS));
    packet.answers.push(DnsRecord::A { domain: "a.b".to_string(), address: [1, 1, 1, 1], ttl: 9 });
    let mut buffer = PacketBuffer::new();
    buffer.seek(100).unwrap();
    assert_eq!(packet.write(&mut buffer), Ok(()));
    buffer.seek(100).unwrap();
    assert_eq!(DnsPacket::from_buffer(&mut buffer), Ok(packet));
}

#[test]
fn writing_sets_the_counts_from_the_lists() {
    let mut packet = DnsPacket::new();
    packet.header.questions = 7;
    packet.header.answers = 7;
    packet.header.authoritative_entries = 7;
    packet.header.resource_entries = 7;
    packet.answers.push(DnsRecord::A { domain: "a".to_string(), address: [1, 2, 3, 4], ttl: 1 });
    let mut buffer = PacketBuffer::new();
    assert_eq!(packet.write(&mut buffer), Ok(()));
    assert_eq!(
        (
            packet.header.questions,
            packet.header.answers,
            packet.header.authoritative_entries,
            packet.header.resource_entries
        ),
        (0, 1, 0, 0)
    );
    assert_eq!(&buffer.buffer[4..12], &[0, 0, 0, 1, 0, 0, 0, 0]);
}

#[test]
fn names_come_back_in_lower_case() {
    let mut packet = DnsPacket::new();
    packet.questions.push(DnsQuestion::new("WWW.Example.COM".to_string(), QueryType::A));
    packet.answers.push(DnsRecord::CNAME {
        domain: "WWW.Example.COM".to_string(),
        host: "Host.Example.COM".to_string(),
        ttl: 1,
    });
    let mut buffer = PacketBuffer::new();
    packet.write(&mut buffer).unwrap();
    buffer.seek(0).unwrap();
    let decoded = DnsPacket::from_buffer(&mut buffer).unwrap();
    assert_eq!(decoded.questions[0].name, "www.example.com");
    assert_eq!(
        decoded.answers[0],
        DnsRecord::CNAME {
            domain: "www.example.com".to_string(),
            host: "host.example.com".to_string(),
            ttl: 1
        }
    );
}

#[test]
fn records_with_pointers_to_an_earlier_name_decode_alike() {
    // header: one question, two answers
    let mut bytes = vec![0, 1, 0x81, 0x80, 0, 1, 0, 2, 0, 0, 0, 0];
    // question at 12: google.com, type A
    bytes.extend_from_slice(&[6, b'g', b'o', b'o', b'g', b'l', b'e', 3, b'c', b'o', b'm', 0]);
    bytes.extend_from_slice(&[0, 1, 0, 1]);
    // two answers, each owned by a pointer to 12
    bytes.extend_from_slice(&[0xC0, 12, 0, 1, 0, 1, 0, 0, 1, 0x2C, 0, 4, 216, 58, 211, 142]);
    bytes.extend_from_slice(&[0xC0, 12, 0, 15, 0, 1, 0, 0, 0, 60, 0, 9, 0, 5, 4, b'm', b'a', b'i', b'l', 0xC0, 12]);
    let mut buffer = filled(&bytes);
    let packet = DnsPacket::from_buffer(&mut buffer).unwrap();
    assert_eq!(buffer.position(), bytes.len());
    assert!(packet.header.response);
    assert!(packet.header.recursion_desired);
    assert!(packet.header.recursion_available);
    assert_eq!(packet.questions, vec![DnsQuestion::new("google.com".to_string(), QueryType::A)]);
    assert_eq!(
        packet.answers,
        vec![
            DnsRecord::A { domain: "google.com".to_string(), address: [216, 58, 211, 142], ttl: 300 },
            DnsRecord::MX {
                domain: "google.com".to_string(),
                priority: 5,
                host: "mail.google.com".to_string(),
                ttl: 60
            },
        ]
    );
    assert!(packet.authorities.is_empty() && packet.resources.is_empty());
}

#[test]
fn a_packet_too_large_for_the_buffer_fails() {
    let mut packet = DnsPacket::new();
    for _ in 0..40 {
        packet.answers.push(DnsRecord::A { domain: "a".to_string(), address: [1, 2, 3, 4], ttl: 1 });
    }
    // 12 + 40 * 17 > 512
    let mut buffer = PacketBuffer::new();
    assert_eq!(packet.write(&mut buffer), Err(DnsError::BufferEnd));
    packet.answers.truncate(29);
    // 12 + 29 * 17 = 505
    let mut buffer = PacketBuffer::new();
    assert_eq!(packet.write(&mut buffer), Ok(()));
    assert_eq!(buffer.position(), 505);
    packet.questions.push(DnsQuestion::new("z".repeat(53), QueryType::A));
    let mut buffer = PacketBuffer::new();
    assert_eq!(packet.write(&mut buffer), Err(DnsError::LabelExceedsMaxLengthSize));
}

#[test]
fn a_packet_that_counts_more_than_it_holds_fails() {
    let mut buffer = filled(&[0, 1, 0, 0, 0, 200, 0, 0, 0, 0, 0, 0]);
    // two hundred questions of five zero bytes each do not fit
    assert_eq!(DnsPacket::from_buffer(&mut buffer), Err(DnsError::BufferEnd));
    let mut buffer = filled(&[0, 1, 0, 0, 0, 100, 0, 0, 0, 0, 0, 0]);
    let packet = DnsPacket::from_buffer(&mut buffer).unwrap();
    assert_eq!(packet.questions.len(), 100);
    assert_eq!(buffer.position(), 512);
    assert_eq!(packet.questions[99], DnsQuestion::new(String::new(), QueryType::UNKNOWN(0)));
    let mut buffer = filled(&[0, 1, 0, 0, 0, 0, 0, 1, 0, 0, 0, 0, 0xC0, 12]);
    assert_eq!(DnsPacket::from_buffer(&mut buffer), Err(DnsError::MaxJumps(5)));
    let mut buffer = PacketBuffer::new();
    buffer.seek(505).unwrap();
    assert_eq!(DnsPacket::from_buffer(&mut buffer), Err(DnsError::BufferEnd));
}

#[test]
fn unknown_records_are_counted_but_not_written() {
    let mut packet = DnsPacket::new();
    packet.resources.push(DnsRecord::UNKNOWN {
        domain: "x".to_string(),
        qtype: 41,
        data_length: 0,
        ttl: 0,
    });
    let mut buffer = PacketBuffer::new();
    assert_eq!(packet.write(&mut buffer), Ok(()));
    assert_eq!(buffer.position(), 12);
    assert_eq!(packet.header.resource_entries, 1);
    buffer.seek(0).unwrap();
    let decoded = DnsPacket::from_buffer(&mut buffer).unwrap();
    // the record that the header counts is read from the zeros behind the header
    assert_eq!(
        decoded.resources,
        vec![DnsRecord::UNKNOWN { domain: String::new(), qtype: 0, data_length: 0, ttl: 0 }]
    );
}

#[test]
fn a_header_that_is_cut_off_is_read_as_far_as_it_goes() {
    let mut buffer = PacketBuffer::new();
    buffer.buffer[506..512].copy_from_slice(&[0xAB, 0xCD, 0x81, 0x03, 0x00, 0x07]);
    let mut before = DnsHeader::new();
    before.answers = 9;
    before.authed_data = true;

    // the id, the flags and the first count lie inside the buffer
    let mut header = before;
    buffer.seek(506).unwrap();
    assert_eq!(header.read(&mut buffer), Err(DnsError::BufferEnd));
    assert_eq!(buffer.position(), 512);
    let mut expected = before;
    expected.id = 0xABCD;
    expected.recursion_desired = true;
    expected.response = true;
    expected.rescode = ResultCode::NXDOMAIN;
    expected.authed_data = false;
    expected.questions = 7;
    assert_eq!(header, expected);

    // the id only
    let mut header = before;
    buffer.seek(509).unwrap();
    assert_eq!(header.read(&mut buffer), Err(DnsError::BufferEnd));
    assert_eq!(buffer.position(), 512);
    let mut expected = before;
    expected.id = 0x0300;
    assert_eq!(header, expected);

    // nothing
    let mut header = before;
    buffer.seek(511).unwrap();
    assert_eq!(header.read(&mut buffer), Err(DnsError::BufferEnd));
    assert_eq!(buffer.position(), 512);
    assert_eq!(header, before);
    buffer.seek(4000).unwrap();
    assert_eq!(header.read(&mut buffer), Err(DnsError::BufferEnd));
    assert_eq!(buffer.position(), 4000);
    assert_eq!(header, before);
}

#[test]
fn a_question_that_is_cut_off_is_read_as_far_as_it_goes() {
    // the name and the type lie inside the buffer, the class does not
    let mut buffer = PacketBuffer::new();
    buffer.buffer[506..512].copy_from_slice(&[1, b'Q', 0, 0, 28, 0]);
    buffer.seek(506).unwrap();
    let mut question = DnsQuestion::new("old-".to_string(), QueryType::MX);
    assert_eq!(question.read(&mut buffer), Err(DnsError::BufferEnd));
    assert_eq!(question, DnsQuestion::new("old-q".to_string(), QueryType::AAAA));
    assert_eq!(buffer.position(), 512);

    // the name only
    buffer.buffer[508..512].copy_from_slice(&[1, b'Q', 0, 0]);
    buffer.seek(508).unwrap();
    let mut question = DnsQuestion::new("old-".to_string(), QueryType::MX);
    assert_eq!(question.read(&mut buffer), Err(DnsError::BufferEnd));
    assert_eq!(question, DnsQuestion::new("old-q".to_string(), QueryType::MX));
    assert_eq!(buffer.position(), 512);

    // a name that fails behind its first label
    let mut buffer = filled(&[1, b'Q', 0xC0, 2]);
    let mut question = DnsQuestion::new("old-".to_string(), QueryType::MX);
    assert_eq!(question.read(&mut buffer), Err(DnsError::MaxJumps(5)));
    assert_eq!(question, DnsQuestion::new("old-q".to_string(), QueryType::MX));
    assert_eq!(buffer.position(), 4);
}

#[test]
fn a_failed_reading_leaves_the_cursor_where_it_stopped() {
    // a record of which the host name fails: the cursor stays behind the first pointer
    // of the host name
    let mut bytes = vec![1, b'x', 0, 0, 2, 0, 1, 0, 0, 0, 1, 0, 2];
    bytes.extend_from_slice(&[0xC0, 13]);
    let mut buffer = filled(&bytes);
    assert_eq!(DnsRecord::read(&mut buffer), Err(DnsError::MaxJumps(5)));
    assert_eq!(buffer.position(), 15);

    // a record that is cut off in its fixed part
    let mut buffer = PacketBuffer::new();
    buffer.seek(505).unwrap();
    assert_eq!(DnsRecord::read(&mut buffer), Err(DnsError::BufferEnd));
    assert_eq!(buffer.position(), 512);

    // a packet of which the second question fails in its name
    let mut bytes = vec![0, 1, 0, 0, 0, 2, 0, 0, 0, 0, 0, 0];
    bytes.extend_from_slice(&[1, b'a', 0, 0, 1, 0, 1]);
    bytes.extend_from_slice(&[0xC0, 19]);
    let mut buffer = filled(&bytes);
    assert_eq!(DnsPacket::from_buffer(&mut buffer), Err(DnsError::MaxJumps(5)));
    assert_eq!(buffer.position(), 21);
}

#[test]
fn a_failed_writing_leaves_the_cursor_where_it_stopped() {
    let record = DnsRecord::NS { domain: "ab".to_string(), host: "y".repeat(53), ttl: 1 };
    let mut buffer = PacketBuffer::new();
    assert_eq!(record.write(&mut buffer), Err(DnsError::LabelExceedsMaxLengthSize));
    // the name of the owner, the fixed part and the two bytes left for the length
    assert_eq!(buffer.position(), 4 + 8 + 2);

    let mut packet = DnsPacket::new();
    packet.questions.push(DnsQuestion::new("q".to_string(), QueryType::A));
    packet.answers.push(record);
    let mut buffer = PacketBuffer::new();
    assert_eq!(packet.write(&mut buffer), Err(DnsError::LabelExceedsMaxLengthSize));
    assert_eq!(buffer.position(), 12 + 7 + 14);
    assert_eq!(packet.header.questions, 1);
    assert_eq!(packet.header.answers, 1);

    let mut buffer = PacketBuffer::new();
    buffer.seek(490).unwrap();
    assert_eq!(packet.write(&mut buffer), Err(DnsError::BufferEnd));
    assert_eq!(buffer.position(), 512);
}
