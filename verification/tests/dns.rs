use dns_ligase::dns::{
    parse_name, serialize_name, Cursor, DnsError, DnsHeader, DnsMessage, DnsQuestion, DnsResourceRecord, ErrorKind,
};

#[test]
fn test_dns_message_serialize_parse() {
    let header = DnsHeader::new(0x1234, 0x0100, 1, 0, 0, 0);
    let question = DnsQuestion {
        name: "example.com".to_string(),
        qtype: 1,
        qclass: 1,
    };
    let msg = DnsMessage {
        header,
        questions: vec![question],
        answers: vec![],
        authorities: vec![],
        additionals: vec![],
        edns_do: false,
    };

    let serialized = msg.serialize().unwrap();
    let parsed = DnsMessage::parse(&serialized).unwrap();

    assert_eq!(msg, parsed);
}

#[test]
fn test_parse_real_packet() {
    // A hardcoded UDP DNS query for 'google.com' (Type A, Class IN)
    // Header: ID=0x1234, Flags=0x0100, QD=1, AN=0, NS=0, AR=0
    // Question: google.com (0x06 + google + 0x03 + com + 0x00), Type A (0x0001), Class IN (0x0001)
    let raw_packet: [u8; 28] = [
        0x12, 0x34, 0x01, 0x00, 0x00, 0x01, 0x00, 0x00, 0x00, 0x00, 0x00, 0x00,
        0x06, b'g', b'o', b'o', b'g', b'l', b'e', 0x03, b'c', b'o', b'm', 0x00,
        0x00, 0x01, 0x00, 0x01,
    ];

    let parsed = DnsMessage::parse(&raw_packet).expect("Failed to parse real packet");

    assert_eq!(parsed.header.id, 0x1234);
    assert_eq!(parsed.header.qdcount, 1);
    assert_eq!(parsed.questions.len(), 1);
    assert_eq!(parsed.questions[0].name, "google.com");
    assert_eq!(parsed.questions[0].qtype, 1);
    assert_eq!(parsed.questions[0].qclass, 1);
}

#[test]
fn test_malicious_pointer_lone_c0() {
    // Packet ends with a lone 0xC0 pointer
    let raw_packet: [u8; 13] = [
        0x12, 0x34, 0x01, 0x00, 0x00, 0x01, 0x00, 0x00, 0x00, 0x00, 0x00, 0x00, 0xC0
    ];
    let mut reader = Cursor::new(&raw_packet[..]);
    let result = parse_name(&mut reader);
    assert!(result.is_err());
    if let Err(e) = result {
        assert_eq!(e.kind(), ErrorKind::UnexpectedEof);
    }
}

#[test]
fn test_malicious_pointer_out_of_bounds() {
    // Packet has a pointer (0xC0 0x05) pointing to offset 5, but only 4 bytes exist.
    let raw_packet: [u8; 4] = [0xC0, 0x05, 0x00, 0x00];
    let mut reader = Cursor::new(&raw_packet[..]);
    let result = parse_name(&mut reader);
    assert!(result.is_err());
}

#[test]
fn test_malicious_pointer_infinite_loop() {
    // Create a packet where a pointer leads to an infinite loop
    // byte 0: 0xC0 0x02 (pointer to offset 2)
    // byte 2: 0xC0 0x02 (pointer to offset 2)
    let raw_packet: [u8; 4] = [0xC0, 0x02, 0xC0, 0x02];
    let mut reader = Cursor::new(&raw_packet[..]);
    let result = parse_name(&mut reader);
    assert!(result.is_err());
    if let Err(e) = result {
        assert_eq!(e.to_string(), "Too many DNS name compression jumps");
    }
}

#[test]
fn test_edns_opt_record() {
    let header = DnsHeader::new(0x1234, 0x0100, 0, 0, 0, 1);
    let mut msg = DnsMessage {
        header,
        questions: vec![],
        answers: vec![],
        authorities: vec![],
        additionals: vec![],
        edns_do: false,
    };

    msg.add_opt_record(1232);
    // The record is added; the flag of the message itself is left alone.
    assert!(msg.edns_do == false);

    // Reading the message finds the bit in the record.
    let serialized = msg.serialize().unwrap();
    let parsed = DnsMessage::parse(&serialized).unwrap();
    assert!(parsed.edns_do);
    assert_eq!(parsed.additionals.len(), 1);
    assert_eq!(parsed.additionals[0].rtype, 41);
    assert_eq!(parsed.additionals[0].rclass, 1232);
}

fn name_error(data: &[u8]) -> DnsError {
    let mut reader = Cursor::new(data);
    parse_name(&mut reader).unwrap_err()
}

#[test]
fn each_name_error_has_its_input() {
    assert_eq!(name_error(&[]), DnsError::EndOfData);
    assert_eq!(name_error(&[1, b'a']), DnsError::EndOfData);
    assert_eq!(name_error(&[0xC0]), DnsError::TruncatedPointer);
    assert_eq!(name_error(&[0xC0, 2]), DnsError::PointerOutOfBounds);
    assert_eq!(name_error(&[0xC0, 0]), DnsError::TooManyJumps);
    assert_eq!(name_error(&[3, b'a', b'b']), DnsError::TruncatedLabel);
    assert_eq!(name_error(&[1, 0xFF, 0]), DnsError::InvalidUtf8);
    assert_eq!(DnsMessage::parse(&[0; 11]).unwrap_err(), DnsError::FillBuffer);
}

#[test]
fn errors_have_kinds_and_messages() {
    let all = [
        (DnsError::EndOfData, ErrorKind::UnexpectedEof, "End of data"),
        (DnsError::TruncatedPointer, ErrorKind::UnexpectedEof, "Truncated compression pointer"),
        (DnsError::PointerOutOfBounds, ErrorKind::InvalidData, "Pointer out of bounds"),
        (DnsError::TooManyJumps, ErrorKind::InvalidData, "Too many DNS name compression jumps"),
        (DnsError::TruncatedLabel, ErrorKind::UnexpectedEof, "Truncated label"),
        (DnsError::InvalidUtf8, ErrorKind::InvalidData, "Invalid UTF-8 in label"),
        (DnsError::FillBuffer, ErrorKind::UnexpectedEof, "failed to fill whole buffer"),
    ];
    for (e, kind, message) in all {
        assert_eq!(e.kind(), kind);
        assert_eq!(e.to_string(), message);
    }
}

#[test]
fn names_follow_pointers_and_end_behind_the_first() {
    // "b.c" at 0, then "a" and a pointer to 0.
    let data = [1, b'b', 1, b'c', 0, 1, b'a', 0xC0, 0, 9];
    let mut reader = Cursor { data: &data, pos: 5 };
    assert_eq!(parse_name(&mut reader).unwrap(), "a.b.c");
    assert_eq!(reader.pos, 9);
}

#[test]
fn sixty_four_pointers_are_followed_and_no_more() {
    // A chain of pointers, each to the next, the last to a zero byte.
    let chain = |n: usize| -> Vec<u8> {
        let mut data = Vec::new();
        for i in 0..n {
            data.push(0xC0);
            data.push((2 * (i + 1)) as u8);
        }
        data.push(0);
        data
    };
    let short = chain(64);
    assert_eq!(parse_name(&mut Cursor::new(&short)).unwrap(), "");
    assert_eq!(name_error(&chain(65)), DnsError::TooManyJumps);
}

#[test]
fn names_are_written_without_empty_labels() {
    assert_eq!(serialize_name("ab.c"), vec![2, b'a', b'b', 1, b'c', 0]);
    assert_eq!(serialize_name("ab..c."), vec![2, b'a', b'b', 1, b'c', 0]);
    assert_eq!(serialize_name(""), vec![0]);
    assert_eq!(serialize_name("\u{e9}"), vec![2, 0xC3, 0xA9, 0]);
}

#[test]
fn names_round_trip() {
    let bytes = serialize_name("a..example.com.");
    let mut reader = Cursor::new(&bytes);
    assert_eq!(parse_name(&mut reader).unwrap(), "a.example.com");
    assert_eq!(reader.pos, bytes.len());
}

#[test]
fn records_are_written_to_the_byte() {
    let r = DnsResourceRecord {
        name: "a".to_string(),
        rtype: 0x0102,
        rclass: 0x0304,
        ttl: 0x05060708,
        rdata: vec![9, 10],
        cname_target: None,
    };
    let bytes = r.serialize().unwrap();
    assert_eq!(bytes, vec![1, b'a', 0, 1, 2, 3, 4, 5, 6, 7, 8, 0, 2, 9, 10]);
    assert_eq!(DnsResourceRecord::parse(&mut Cursor::new(&bytes)).unwrap(), r);
    assert_eq!(
        DnsResourceRecord::parse(&mut Cursor::new(&bytes[..14])).unwrap_err(),
        DnsError::FillBuffer
    );
}

#[test]
fn headers_are_written_to_the_byte() {
    let h = DnsHeader::new(0x0102, 0x0304, 5, 6, 7, 8);
    let bytes = h.serialize().unwrap();
    assert_eq!(bytes, vec![1, 2, 3, 4, 0, 5, 0, 6, 0, 7, 0, 8]);
    assert_eq!(DnsHeader::parse(&mut Cursor::new(&bytes)).unwrap(), h);
}

#[test]
fn questions_are_written_to_the_byte() {
    let q = DnsQuestion { name: "x.y".to_string(), qtype: 28, qclass: 1 };
    let bytes = q.serialize().unwrap();
    assert_eq!(bytes, vec![1, b'x', 1, b'y', 0, 0, 28, 0, 1]);
    assert_eq!(DnsQuestion::parse(&mut Cursor::new(&bytes)).unwrap(), q);
}

#[test]
fn messages_count_their_additional_records() {
    let opt = DnsResourceRecord {
        name: String::new(),
        rtype: 41,
        rclass: 512,
        ttl: 7,
        rdata: vec![1, 2, 3],
        cname_target: None,
    };
    let mut msg = DnsMessage {
        header: DnsHeader::new(1, 0, 0, 0, 0, 9),
        questions: vec![],
        answers: vec![],
        authorities: vec![],
        additionals: vec![opt],
        edns_do: false,
    };
    assert_eq!(DnsMessage::parse(&msg.serialize().unwrap()).unwrap().header.arcount, 1);

    // An OPT record that is there is rewritten, its options kept.
    msg.add_opt_record(1232);
    assert_eq!(msg.additionals.len(), 1);
    assert_eq!(msg.additionals[0].rclass, 1232);
    assert_eq!(msg.additionals[0].ttl, 0x8007);
    assert_eq!(msg.additionals[0].rdata, vec![1, 2, 3]);
    assert_eq!(msg.header.arcount, 9);
}

#[test]
fn an_alias_without_a_readable_target_has_none() {
    let r = DnsResourceRecord {
        name: "a".to_string(),
        rtype: 5,
        rclass: 1,
        ttl: 0,
        rdata: vec![5, b'x'],
        cname_target: None,
    };
    let bytes = r.serialize().unwrap();
    let back = DnsResourceRecord::parse(&mut Cursor::new(&bytes)).unwrap();
    assert_eq!(back.cname_target, None);
    assert_eq!(back.rdata, vec![5, b'x']);
}

#[test]
fn the_do_bit_is_the_top_bit_of_the_low_half() {
    let asks = |ttl: u32, rtype: u16| {
        let opt = DnsResourceRecord {
            name: String::new(),
            rtype,
            rclass: 512,
            ttl,
            rdata: vec![],
            cname_target: None,
        };
        let msg = DnsMessage {
            header: DnsHeader::new(1, 0, 0, 0, 0, 1),
            questions: vec![],
            answers: vec![],
            authorities: vec![],
            additionals: vec![opt],
            edns_do: false,
        };
        DnsMessage::parse(&msg.serialize().unwrap()).unwrap().edns_do
    };
    assert!(asks(0x0000_8000, 41));
    assert!(asks(0xffff_ffff, 41));
    assert!(!asks(0x8000_0000, 41));
    assert!(!asks(0xffff_7fff, 41));
    assert!(!asks(0x0000_8000, 1));
}

#[test]
fn a_new_opt_record_holds_the_do_bit_alone() {
    let mut msg = DnsMessage {
        header: DnsHeader::new(1, 0, 0, 0, 0, 0),
        questions: vec![],
        answers: vec![],
        authorities: vec![],
        additionals: vec![],
        edns_do: false,
    };
    msg.add_opt_record(1232);
    // Root name, type OPT, size 1232, extended code and version 0, DO, no options.
    assert_eq!(
        msg.additionals[0].serialize().unwrap(),
        vec![0, 0, 41, 0x04, 0xD0, 0, 0, 0x80, 0, 0, 0]
    );
}
