use dns_ligase::dns::{DnsHeader, DnsMessage, DnsQuestion, DnsResourceRecord};
use dns_ligase::blocklist::Blocklist;
use dns_ligase::dns::DnsError;
use dns_ligase::resolve::{a_query, a_records};
use dns_ligase::upstream::{
    answers_query, build_nxdomain, client_udp_size, frame_len, qtype_str, start_query, tc_bit_set, tcp_frame,
    truncate_response, PendingQuery, Pool, QueryLog, Reply, Started, Transport,
};

fn query_msg(name: &str) -> DnsMessage {
    DnsMessage {
        header: DnsHeader::new(0x1234, 0x0100, 1, 0, 0, 0),
        questions: vec![DnsQuestion {
            name: name.to_string(),
            qtype: 1,
            qclass: 1,
        }],
        answers: vec![],
        authorities: vec![],
        additionals: vec![],
        edns_do: false,
    }
}

#[test]
fn test_tc_bit_set() {
    // QR|RD|RA|TC = 0x8180 | 0x0200 = 0x8380
    let flags = 0x8380u16.to_be_bytes();
    let msg = [0x12, 0x34, flags[0], flags[1]];
    assert!(tc_bit_set(&msg));

    let flags = 0x8180u16.to_be_bytes();
    let msg = [0x12, 0x34, flags[0], flags[1]];
    assert!(!tc_bit_set(&msg));

    assert!(!tc_bit_set(&[0x12, 0x34]));
}

#[test]
fn test_truncate_response_sets_tc_and_strips_answers() {
    // A response large enough to exceed any UDP limit: a TXT record with
    // a big RDATA field.
    let answer = DnsResourceRecord {
        name: "example.com".to_string(),
        rtype: 1,
        rclass: 1,
        ttl: 300,
        rdata: vec![0u8; 600],
        cname_target: None,
    };
    let opt = DnsResourceRecord {
        name: "".to_string(),
        rtype: 41,
        rclass: 1232,
        ttl: 0x80000000,
        rdata: vec![],
        cname_target: None,
    };
    let mut msg = query_msg("example.com");
    msg.header.flags = 0x8180; // QR|RD|RA
    msg.header.ancount = 1;
    msg.answers = vec![answer];
    msg.additionals = vec![opt];

    let serialized = msg.serialize().unwrap();
    assert!(serialized.len() > 512);

    let truncated = truncate_response(&serialized).unwrap();
    let parsed = DnsMessage::parse(&truncated).unwrap();

    assert_ne!(parsed.header.flags & 0x0200, 0, "TC bit must be set");
    assert_eq!(parsed.answers.len(), 0);
    assert_eq!(parsed.authorities.len(), 0);
    assert_eq!(parsed.questions.len(), 1);
    assert_eq!(parsed.questions[0].name, "example.com");
    // OPT record retained so the client still sees EDNS0.
    assert_eq!(parsed.additionals.len(), 1);
    assert_eq!(parsed.additionals[0].rtype, 41);
    // Truncated response must fit under the 512-byte default UDP limit.
    assert!(truncated.len() <= 512);
}
// --- CNAME filtering tests ---

/// Build a raw DNS response for "metrics.site.com" with a CNAME answer.
/// If `compressed` is true, the CNAME target uses a compression pointer
/// back into the question section (pointing to "site.com" at offset 20).
fn build_cname_response(compressed: bool) -> Vec<u8> {
    // Header: ID=0x1234, flags=0x8180 (QR|RD|RA, NOERROR), QD=1, AN=1, NS=0, AR=0
    let mut buf = vec![
        0x12, 0x34, 0x81, 0x80, 0x00, 0x01, 0x00, 0x01, 0x00, 0x00, 0x00, 0x00,
    ];
    // Question: metrics.site.com, type A, class IN
    // Offset 12: \x07metrics\x04site\x03com\x00
    buf.extend_from_slice(b"\x07metrics\x04site\x03com\x00");
    buf.extend_from_slice(&[0x00, 0x01, 0x00, 0x01]); // type A, class IN
    // Question ends at offset 34. "site.com" starts at offset 20 (0x14).

    // Answer: CNAME for metrics.site.com -> target
    buf.extend_from_slice(&[0xC0, 0x0C]); // name: pointer to offset 12
    buf.extend_from_slice(&[0x00, 0x05]); // type CNAME
    buf.extend_from_slice(&[0x00, 0x01]); // class IN
    buf.extend_from_slice(&[0x00, 0x00, 0x01, 0x2C]); // TTL 300

    if compressed {
        // CNAME target: tracker.site.com — "tracker" + pointer to offset 20
        let rdata: &[u8] = b"\x07tracker\xC0\x14";
        buf.extend_from_slice(&(rdata.len() as u16).to_be_bytes());
        buf.extend_from_slice(rdata);
    } else {
        // CNAME target: tracker.evil.net — fully uncompressed
        let rdata: &[u8] = b"\x07tracker\x04evil\x03net\x00";
        buf.extend_from_slice(&(rdata.len() as u16).to_be_bytes());
        buf.extend_from_slice(rdata);
    }
    buf
}

#[test]
fn test_cname_target_with_compression_pointer() {
    let resp = build_cname_response(true);
    let msg = DnsMessage::parse(&resp).unwrap();
    assert_eq!(msg.answers.len(), 1);
    assert_eq!(msg.answers[0].rtype, 5);
    assert_eq!(
        msg.answers[0].cname_target.as_deref(),
        Some("tracker.site.com"),
        "CNAME target must resolve through compression pointer"
    );
}

#[test]
fn test_cname_target_uncompressed() {
    let resp = build_cname_response(false);
    let msg = DnsMessage::parse(&resp).unwrap();
    assert_eq!(msg.answers.len(), 1);
    assert_eq!(msg.answers[0].rtype, 5);
    assert_eq!(
        msg.answers[0].cname_target.as_deref(),
        Some("tracker.evil.net"),
        "uncompressed CNAME target must resolve"
    );
}

#[test]
fn test_no_cname_in_a_only_response() {
    // A response with only an A record — no CNAME target should be found.
    let mut msg = query_msg("example.com");
    msg.header.flags = 0x8180;
    msg.header.ancount = 1;
    msg.answers = vec![DnsResourceRecord {
        name: "example.com".to_string(),
        rtype: 1,
        rclass: 1,
        ttl: 300,
        rdata: vec![192, 0, 2, 1],
        cname_target: None,
    }];
    let resp = msg.serialize().unwrap();
    let parsed = DnsMessage::parse(&resp).unwrap();
    assert_eq!(parsed.answers.len(), 1);
    assert_eq!(parsed.answers[0].rtype, 1);
    assert!(parsed.answers[0].cname_target.is_none());
}

#[test]
fn test_garbage_response_does_not_panic() {
    // Valid header claiming 1 answer but no answer data follows — parsing
    // must fail cleanly when trying to read the answer RR, not panic.
    let garbage = [
        0x12, 0x34, 0x81, 0x80, // ID, flags
        0x00, 0x01, 0x00, 0x01, // QD=1, AN=1
        0x00, 0x00, 0x00, 0x00, // NS=0, AR=0
        // Question: "x" type A class IN
        0x01, b'x', 0x00, 0x00, 0x01, 0x00, 0x01,
        // No answer data — header claims 1 answer but packet ends here.
    ];
    let result = DnsMessage::parse(&garbage);
    assert!(result.is_err());
}

fn rules(lines: &[&str]) -> Blocklist {
    let mut bl = Blocklist::new();
    for line in lines {
        bl.parse_auto(line).unwrap();
    }
    bl
}

fn pending(transport: Transport, packet: &[u8], bl: &Blocklist) -> (PendingQuery, Option<QueryLog>) {
    match start_query(transport, packet, bl).unwrap() {
        Started::Pending { query, log } => (query, log),
        Started::Answered(_) => panic!("the query must be put to upstream"),
    }
}

fn answered(transport: Transport, packet: &[u8], bl: &Blocklist) -> Reply {
    match start_query(transport, packet, bl).unwrap() {
        Started::Answered(reply) => reply,
        Started::Pending { .. } => panic!("the query must be answered at once"),
    }
}

fn log(domain: &str, action: &'static str, rule: &str) -> QueryLog {
    QueryLog { domain: domain.to_string(), qtype: "A", action, rule: rule.to_string() }
}

#[test]
fn a_blocked_query_is_answered_at_once() {
    let packet = query_msg("Ads.Example.com").serialize().unwrap();
    let bl = rules(&["||example.com^"]);
    let reply = answered(Transport::Udp, &packet, &bl);
    let back = DnsMessage::parse(&reply.bytes).unwrap();
    assert_eq!(back.header, DnsHeader::new(0x1234, 0x8183, 1, 0, 0, 0));
    assert_eq!(back.questions[0].name, "Ads.Example.com");
    assert_eq!(reply.log, Some(log("Ads.Example.com", "blocked", "block_suffix:ads.example.com")));
    assert!(reply.log_first);
    assert!(!answered(Transport::Tcp, &packet, &bl).log_first);
}

#[test]
fn a_query_is_forwarded_with_the_do_bit() {
    let packet = query_msg("example.com").serialize().unwrap();
    let (query, noted) = pending(Transport::Udp, &packet, &rules(&[]));
    assert_eq!(noted, None);
    let sent = DnsMessage::parse(&query.packet).unwrap();
    assert_eq!(sent.header.id, 0x1234);
    assert_eq!(sent.questions, query_msg("example.com").questions);
    assert!(sent.edns_do);
    assert_eq!(sent.additionals.len(), 1);
    assert_eq!(sent.additionals[0].rclass, 1232);
    assert_eq!(sent.additionals[0].ttl, 0x8000);
}

#[test]
fn the_opt_record_of_a_client_is_kept_but_for_size_and_do_bit() {
    let mut msg = query_msg("example.com");
    msg.additionals = vec![DnsResourceRecord {
        name: "".to_string(),
        rtype: 41,
        rclass: 4096,
        ttl: 0x0012_0003,
        rdata: vec![0, 10, 0, 1, 7],
        cname_target: None,
    }];
    let packet = msg.serialize().unwrap();
    let (query, _) = pending(Transport::Udp, &packet, &rules(&[]));
    let sent = DnsMessage::parse(&query.packet).unwrap();
    assert_eq!(sent.additionals.len(), 1);
    assert_eq!(sent.additionals[0].rclass, 1232);
    assert_eq!(sent.additionals[0].ttl, 0x0012_8003);
    assert_eq!(sent.additionals[0].rdata, vec![0, 10, 0, 1, 7]);
}

#[test]
fn cutting_down_twice_changes_nothing() {
    let mut msg = query_msg("a..example.com");
    msg.add_opt_record(1232);
    let once = truncate_response(&msg.serialize().unwrap()).unwrap();
    assert!(tc_bit_set(&once));
    assert_eq!(truncate_response(&once).unwrap(), once);
}

#[test]
fn an_allowed_query_is_logged_and_forwarded() {
    let packet = query_msg("ok.example.com").serialize().unwrap();
    let bl = rules(&["||example.com^", "@@||ok.example.com^"]);
    let (query, noted) = pending(Transport::Tcp, &packet, &bl);
    assert_eq!(noted, Some(log("ok.example.com", "allowed", "allow_suffix:ok.example.com")));
    assert_eq!(query.transport, Transport::Tcp);
}

#[test]
fn a_query_that_cannot_be_read_fails() {
    assert!(matches!(start_query(Transport::Udp, &[0; 4], &rules(&[])), Err(DnsError::FillBuffer)));
}

#[test]
fn a_query_without_questions_is_forwarded_and_not_logged() {
    let mut msg = query_msg("example.com");
    msg.header.qdcount = 0;
    msg.questions = vec![];
    let packet = msg.serialize().unwrap();
    let bl = rules(&["||evil.net^"]);
    let (query, noted) = pending(Transport::Udp, &packet, &bl);
    assert_eq!(noted, None);
    let resp = build_cname_response(false);
    let reply = query.finish(resp.clone(), &bl).unwrap();
    assert_eq!(reply, Reply { bytes: resp, log: None, log_first: false });
}

#[test]
fn an_alias_of_a_blocked_name_is_answered_as_blocked() {
    let packet = query_msg("metrics.site.com").serialize().unwrap();
    let bl = rules(&["||evil.net^"]);
    let (query, _) = pending(Transport::Udp, &packet, &bl);
    let reply = query.finish(build_cname_response(false), &bl).unwrap();
    assert_eq!(reply.bytes, build_nxdomain(&query.msg).unwrap());
    assert_eq!(
        reply.log,
        Some(log("metrics.site.com", "blocked", "cname:tracker.evil.net block_suffix:tracker.evil.net"))
    );
    assert!(reply.log_first);

    // Through a compression pointer, too.
    let bl = rules(&["tracker.site.com"]);
    let (query, _) = pending(Transport::Tcp, &packet, &bl);
    let reply = query.finish(build_cname_response(true), &bl).unwrap();
    assert_eq!(reply.bytes, build_nxdomain(&query.msg).unwrap());
}

#[test]
fn other_responses_are_relayed_to_the_byte() {
    let packet = query_msg("metrics.site.com").serialize().unwrap();
    let bl = rules(&["||other.net^"]);
    let (query, _) = pending(Transport::Udp, &packet, &bl);
    let resp = build_cname_response(true);
    let reply = query.finish(resp.clone(), &bl).unwrap();
    assert_eq!(reply, Reply { bytes: resp, log: Some(log("metrics.site.com", "forwarded", "")), log_first: false });
    // So is one that cannot be read.
    let reply = query.finish(vec![1, 2, 3], &bl).unwrap();
    assert_eq!(reply.bytes, vec![1, 2, 3]);
}

#[test]
fn a_response_too_large_for_the_client_is_cut_down() {
    let mut resp = query_msg("example.com");
    resp.header.flags = 0x8180;
    resp.header.ancount = 1;
    resp.answers = vec![DnsResourceRecord {
        name: "example.com".to_string(),
        rtype: 16,
        rclass: 1,
        ttl: 300,
        rdata: vec![0u8; 600],
        cname_target: None,
    }];
    let resp = resp.serialize().unwrap();
    let bl = rules(&[]);

    let packet = query_msg("example.com").serialize().unwrap();
    let (query, _) = pending(Transport::Udp, &packet, &bl);
    let reply = query.finish(resp.clone(), &bl).unwrap();
    assert_eq!(reply.bytes, truncate_response(&resp).unwrap());
    assert!(tc_bit_set(&reply.bytes));
    assert_eq!(reply.log, Some(log("example.com", "forwarded", "")));

    // A client that takes more gets all of it, and so does one over TCP.
    let mut big = query_msg("example.com");
    big.add_opt_record(1232);
    let packet = big.serialize().unwrap();
    let (query, _) = pending(Transport::Udp, &packet, &bl);
    assert_eq!(query.finish(resp.clone(), &bl).unwrap().bytes, resp);
    let packet = query_msg("example.com").serialize().unwrap();
    let (query, _) = pending(Transport::Tcp, &packet, &bl);
    assert_eq!(query.finish(resp.clone(), &bl).unwrap().bytes, resp);

    // One that cannot be read cannot be cut down.
    let (query, _) = pending(Transport::Udp, &packet, &bl);
    assert_eq!(query.finish(vec![0xFF; 600], &bl).unwrap_err(), truncate_response(&[0xFF; 600]).unwrap_err());
}

#[test]
fn a_truncated_response_is_asked_for_again_over_tcp() {
    let packet = query_msg("example.com").serialize().unwrap();
    let bl = rules(&[]);
    let (query, _) = pending(Transport::Udp, &packet, &bl);
    assert!(query.needs_tcp(&[0x12, 0x34, 0x83, 0x80]));
    assert!(!query.needs_tcp(&[0x12, 0x34, 0x81, 0x80]));
    let (query, _) = pending(Transport::Tcp, &packet, &bl);
    assert!(!query.needs_tcp(&[0x12, 0x34, 0x83, 0x80]));
}

#[test]
fn client_sizes_are_believed_within_bounds() {
    let size = |n: u16| {
        let mut msg = query_msg("a");
        msg.add_opt_record(n);
        client_udp_size(&msg)
    };
    assert_eq!(client_udp_size(&query_msg("a")), 512);
    assert_eq!(size(0), 512);
    assert_eq!(size(1), 1);
    assert_eq!(size(4096), 4096);
    assert_eq!(size(4097), 512);
}

#[test]
fn responses_are_told_apart_by_identifier() {
    assert!(answers_query(&[1, 2, 3], &[1, 2]));
    assert!(!answers_query(&[1, 2, 3], &[1, 3]));
    assert!(!answers_query(&[1, 2], &[1]));
    assert!(answers_query(&[], &[0, 0]));
}

#[test]
fn frames_carry_their_length() {
    let frame = tcp_frame(&[7, 8, 9]);
    assert_eq!(frame, vec![0, 3, 7, 8, 9]);
    assert_eq!(frame_len([frame[0], frame[1]]), 3);
    assert_eq!(frame_len([1, 2]), 258);
}

#[test]
fn query_types_have_names() {
    let names = [
        (1, "A"), (2, "NS"), (5, "CNAME"), (6, "SOA"), (12, "PTR"), (15, "MX"), (16, "TXT"), (28, "AAAA"),
        (33, "SRV"), (41, "OPT"), (43, "DS"), (46, "RRSIG"), (47, "NSEC"), (48, "DNSKEY"), (50, "NSEC3"),
        (52, "TLSA"), (255, "ANY"), (0, "OTHER"), (257, "OTHER"),
    ];
    for (qtype, name) in names {
        assert_eq!(qtype_str(qtype), name);
    }
}

#[test]
fn the_connection_used_last_is_taken_first() {
    let mut pool: Pool<u32> = Pool::new(2);
    assert_eq!(pool.check_out(), None);
    pool.give_back(1);
    pool.give_back(2);
    pool.give_back(3);
    assert_eq!(pool.len(), 2);
    assert_eq!(pool.check_out(), Some(2));
    assert_eq!(pool.check_out(), Some(1));
    assert_eq!(pool.check_out(), None);
}

#[test]
fn addresses_are_asked_for_and_read() {
    let query = DnsMessage::parse(&a_query(7, "lists.example.com").unwrap()).unwrap();
    assert_eq!(query.header, DnsHeader::new(7, 0x0100, 1, 0, 0, 0));
    assert_eq!(query.questions, query_msg("lists.example.com").questions);

    let record = |rtype: u16, rdata: Vec<u8>| DnsResourceRecord {
        name: "lists.example.com".to_string(),
        rtype,
        rclass: 1,
        ttl: 60,
        rdata,
        cname_target: None,
    };
    let mut resp = query_msg("lists.example.com");
    resp.header.ancount = 4;
    resp.answers =
        vec![record(1, vec![192, 0, 2, 1]), record(28, vec![0; 16]), record(1, vec![1, 2, 3]), record(1, vec![192, 0, 2, 2])];
    assert_eq!(a_records(&resp.serialize().unwrap()).unwrap(), vec![[192, 0, 2, 1], [192, 0, 2, 2]]);
    assert_eq!(a_records(&[0; 3]).unwrap_err(), DnsError::FillBuffer);
}
