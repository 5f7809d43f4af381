//! From a query to its answer: what is asked of the upstream resolver, what is
//! sent to the client, and what is logged.
//!
//! The functions here decide and build; sockets and clocks are the caller's. A
//! query begins with `start_query`. Either it is answered at once, or it is
//! pending: the caller asks upstream, asks again over TCP where
//! `PendingQuery::needs_tcp` says so, and ends with `PendingQuery::finish`.
use std::collections::VecDeque;
use vstd::prelude::*;
use crate::blocklist;
use crate::blocklist::{Blocklist, MatchOutcome, Outcome, Rules};
use crate::dns;
use crate::dns::{DnsError, DnsHeader, DnsMessage, DnsQuestion, DnsResourceRecord, Message, Question, Record};
use crate::text;
use crate::wire;

verus! {

/// The UDP payload size advertised to the upstream resolver. It is large enough
/// for common responses and small enough not to be fragmented on the way. It is
/// advertised whatever the client asked for; the client's own limit is kept by
/// truncation.
pub const EDNS_BUFFER_SIZE: usize = 1232;

/// The payload size of a client that advertises none.
pub const DEFAULT_UDP_SIZE: usize = 512;

/// The largest advertised payload size that is believed.
pub const MAX_UDP_SIZE: usize = 4096;

/// How many idle UDP sockets are kept.
pub const UDP_POOL_CAP: usize = 16;

/// How many idle TCP connections are kept.
pub const TCP_POOL_CAP: usize = 8;

/// The longest message that a transport carries.
pub const MAX_MESSAGE: usize = 65535;

/// Flags of the answer to a blocked query: a response, recursion desired and
/// available, no such domain.
pub const NXDOMAIN_FLAGS: u16 = 0x8183;

/// The TC flag: the response was truncated.
pub const TC_FLAG: u16 = 0x0200;

// ---------------------------------------------------------------------------
// Pools
// ---------------------------------------------------------------------------

/// Idle connections, the one used last taken first.
pub struct Pool<T> {
    idle: VecDeque<T>,
    cap: usize,
}

impl<T> Pool<T> {
    /// The idle connections, the one used last at the end.
    pub closed spec fn idle(&self) -> Seq<T> {
        self.idle@
    }

    /// How many idle connections are kept.
    pub closed spec fn cap(&self) -> nat {
        self.cap as nat
    }

    #[verifier::type_invariant]
    spec fn well_formed(self) -> bool {
        self.idle@.len() <= self.cap
    }

    /// A pool that keeps up to `cap` idle connections.
    pub fn new(cap: usize) -> (r: Self)
        ensures
            r.idle() == Seq::<T>::empty(),
            r.cap() == cap,
    {
        Pool { idle: VecDeque::new(), cap }
    }

    /// How many connections are idle: never more than the pool keeps.
    pub fn len(&self) -> (r: usize)
        ensures
            r == self.idle().len(),
            r <= self.cap(),
    {
        proof {
            use_type_invariant(self);
        }
        self.idle.len()
    }

    /// Takes the connection that was used last; `None` where none is idle, and
    /// the caller makes a new one.
    pub fn check_out(&mut self) -> (r: Option<T>)
        ensures
            final(self).cap() == old(self).cap(),
            match r {
                Some(x) => old(self).idle() == final(self).idle().push(x),
                None => old(self).idle().len() == 0 && final(self).idle() == old(self).idle(),
            },
    {
        proof {
            use_type_invariant(&*self);
        }
        let ghost before = self.idle@;
        let mut idle: VecDeque<T> = VecDeque::new();
        std::mem::swap(&mut self.idle, &mut idle);
        let r = idle.pop_back();
        self.idle = idle;
        proof {
            if before.len() > 0 {
                assert(before =~= self.idle@.push(before.last()));
            }
        }
        r
    }

    /// Gives a connection back after it served a query. A full pool lets it go.
    pub fn give_back(&mut self, x: T)
        ensures
            final(self).cap() == old(self).cap(),
            final(self).idle() == if old(self).idle().len() < old(self).cap() {
                old(self).idle().push(x)
            } else {
                old(self).idle()
            },
    {
        proof {
            use_type_invariant(&*self);
        }
        let cap: usize = self.cap;
        let mut idle: VecDeque<T> = VecDeque::new();
        std::mem::swap(&mut self.idle, &mut idle);
        if idle.len() < cap {
            idle.push_back(x);
        }
        self.idle = idle;
    }
}

// ---------------------------------------------------------------------------
// Frames and responses
// ---------------------------------------------------------------------------

/// The identifier of a message, or 0 where it is too short to hold one.
pub open spec fn message_id(msg: Seq<u8>) -> u16 {
    if msg.len() >= 2 {
        dns::be16(msg[0], msg[1])
    } else {
        0
    }
}

/// The identifier of a message, or 0 where it is too short to hold one.
fn read_id(msg: &[u8]) -> (r: u16)
    ensures
        r == message_id(msg@),
{
    if msg.len() >= 2 {
        dns::read_be16(msg[0], msg[1])
    } else {
        0
    }
}

/// Whether a datagram answers the query: their identifiers agree. A datagram
/// that came late for an earlier query on the same socket does not.
pub fn answers_query(query: &[u8], response: &[u8]) -> (r: bool)
    ensures
        r == (message_id(query@) == message_id(response@)),
{
    read_id(query) == read_id(response)
}

/// A message as it goes over TCP: its length in two bytes, then the message.
pub open spec fn framed(msg: Seq<u8>) -> Seq<u8> {
    dns::be16_bytes((msg.len() % 65536) as u16) + msg
}

/// A message as it goes over TCP.
pub fn tcp_frame(msg: &[u8]) -> (r: Vec<u8>)
    ensures
        r@ == framed(msg@),
{
    let mut buf: Vec<u8> = Vec::new();
    dns::push_be16(&mut buf, dns::low16(msg.len()));
    dns::push_bytes(&mut buf, msg);
    assert(buf@ =~= framed(msg@));
    buf
}

/// The length of the message behind a length prefix.
pub fn frame_len(prefix: [u8; 2]) -> (r: usize)
    ensures
        r == dns::be16(prefix@[0], prefix@[1]),
{
    dns::read_be16(prefix[0], prefix[1]) as usize
}

/// Whether the TC flag of a message is set.
pub open spec fn is_truncated(msg: Seq<u8>) -> bool {
    msg.len() >= 4 && dns::be16(msg[2], msg[3]) & TC_FLAG != 0
}

/// Whether the TC flag of a message is set.
pub fn tc_bit_set(msg: &[u8]) -> (r: bool)
    ensures
        r == is_truncated(msg@),
{
    if msg.len() < 4 {
        return false;
    }
    let flags = dns::read_be16(msg[2], msg[3]);
    (flags & TC_FLAG) != 0
}

/// The short name of a query type.
pub open spec fn qtype_label(qtype: u16) -> Seq<char> {
    if qtype == 1 {
        "A"@
    } else if qtype == 2 {
        "NS"@
    } else if qtype == 5 {
        "CNAME"@
    } else if qtype == 6 {
        "SOA"@
    } else if qtype == 12 {
        "PTR"@
    } else if qtype == 15 {
        "MX"@
    } else if qtype == 16 {
        "TXT"@
    } else if qtype == 28 {
        "AAAA"@
    } else if qtype == 33 {
        "SRV"@
    } else if qtype == 41 {
        "OPT"@
    } else if qtype == 43 {
        "DS"@
    } else if qtype == 46 {
        "RRSIG"@
    } else if qtype == 47 {
        "NSEC"@
    } else if qtype == 48 {
        "DNSKEY"@
    } else if qtype == 50 {
        "NSEC3"@
    } else if qtype == 52 {
        "TLSA"@
    } else if qtype == 255 {
        "ANY"@
    } else {
        "OTHER"@
    }
}

/// The short name of a query type, for the log.
pub fn qtype_str(qtype: u16) -> (r: &'static str)
    ensures
        r@ == qtype_label(qtype),
{
    match qtype {
        1 => "A",
        2 => "NS",
        5 => "CNAME",
        6 => "SOA",
        12 => "PTR",
        15 => "MX",
        16 => "TXT",
        28 => "AAAA",
        33 => "SRV",
        41 => "OPT",
        43 => "DS",
        46 => "RRSIG",
        47 => "NSEC",
        48 => "DNSKEY",
        50 => "NSEC3",
        52 => "TLSA",
        255 => "ANY",
        _ => "OTHER",
    }
}

/// The answer to a blocked query: its identifier and questions, no records, and
/// the flags that say that there is no such domain.
pub open spec fn nxdomain(m: Message) -> Message {
    Message {
        header: DnsHeader {
            flags: NXDOMAIN_FLAGS,
            qdcount: 1,
            ancount: 0,
            nscount: 0,
            ..m.header
        },
        answers: Seq::empty(),
        authorities: Seq::empty(),
        additionals: Seq::empty(),
        ..m
    }
}

/// The bytes of the answer to a blocked query.
pub fn build_nxdomain(msg: &DnsMessage) -> (r: Result<Vec<u8>, DnsError>)
    ensures
        r matches Ok(b) && b@ == dns::wire_message(nxdomain(msg@)),
{
    let mut response = msg.clone();
    response.header.flags = NXDOMAIN_FLAGS;
    response.header.qdcount = 1;
    response.header.ancount = 0;
    response.header.nscount = 0;
    response.answers.clear();
    response.authorities.clear();
    response.additionals.clear();
    assert(response@ =~= nxdomain(msg@));
    response.serialize()
}

/// The OPT records, in order.
pub open spec fn opt_records(rs: Seq<Record>) -> Seq<Record>
    decreases rs.len(),
{
    if rs.len() == 0 {
        Seq::empty()
    } else if rs.last().rtype == dns::TYPE_OPT {
        opt_records(rs.drop_last()).push(rs.last())
    } else {
        opt_records(rs.drop_last())
    }
}

/// A response cut down for a client that cannot take all of it: the questions
/// and OPT records, no others, and the TC flag set.
pub open spec fn truncated(m: Message) -> Message {
    Message {
        header: DnsHeader { flags: m.header.flags | TC_FLAG, ancount: 0, nscount: 0, ..m.header },
        answers: Seq::empty(),
        authorities: Seq::empty(),
        additionals: opt_records(m.additionals),
        ..m
    }
}

/// The bytes of a response cut down for a client that cannot take all of it.
pub open spec fn truncated_bytes(resp: Seq<u8>) -> Result<Seq<u8>, DnsError> {
    match dns::message_at(resp) {
        Err(e) => Err(e),
        Ok(m) => Ok(dns::wire_message(truncated(m))),
    }
}

/// The OPT records, in order.
fn keep_opt(rs: Vec<DnsResourceRecord>) -> (r: Vec<DnsResourceRecord>)
    ensures
        dns::record_views(r@) == opt_records(dns::record_views(rs@)),
{
    let mut out: Vec<DnsResourceRecord> = Vec::new();
    let ghost all = dns::record_views(rs@);
    for i in 0..rs.len()
        invariant
            all == dns::record_views(rs@),
            dns::record_views(out@) == opt_records(all.take(i as int)),
    {
        assert(all.take(i + 1).drop_last() =~= all.take(i as int));
        assert(all[i as int] == rs@[i as int]@);
        if rs[i].rtype == dns::TYPE_OPT {
            let ghost before = out@;
            out.push(rs[i].clone());
            assert(dns::record_views(out@) =~= dns::record_views(before).push(all[i as int]));
        }
    }
    assert(all.take(all.len() as int) =~= all);
    out
}

/// Cuts a response down for a client that cannot take all of it, so that it
/// asks again over TCP. Fails where the response cannot be read.
pub fn truncate_response(resp: &[u8]) -> (r: Result<Vec<u8>, DnsError>)
    ensures
        match truncated_bytes(resp@) {
            Ok(b) => r matches Ok(v) && v@ == b,
            Err(e) => r == Err::<Vec<u8>, DnsError>(e),
        },
{
    let mut msg = DnsMessage::parse(resp)?;
    let ghost before = msg@;
    msg.answers.clear();
    msg.authorities.clear();
    let mut additionals: Vec<DnsResourceRecord> = Vec::new();
    std::mem::swap(&mut msg.additionals, &mut additionals);
    msg.additionals = keep_opt(additionals);
    msg.header.flags = msg.header.flags | TC_FLAG;
    msg.header.ancount = 0;
    msg.header.nscount = 0;
    assert(msg@ =~= truncated(before));
    msg.serialize()
}

// ---------------------------------------------------------------------------
// Queries
// ---------------------------------------------------------------------------

/// How a client sent its query.
#[derive(Debug, Clone, Copy, PartialEq, Eq, Structural)]
pub enum Transport {
    Udp,
    Tcp,
}

/// What the log says of a query.
#[derive(Debug, PartialEq, Eq)]
pub struct QueryLog {
    pub domain: String,
    pub qtype: &'static str,
    pub action: &'static str,
    pub rule: String,
}

/// What the log says of a query, as a mathematical value.
#[verifier::ext_equal]
pub struct LogLine {
    pub domain: Seq<char>,
    pub qtype: Seq<char>,
    pub action: Seq<char>,
    pub rule: Seq<char>,
}

impl View for QueryLog {
    type V = LogLine;

    open spec fn view(&self) -> LogLine {
        LogLine {
            domain: self.domain@,
            qtype: self.qtype@,
            action: self.action@,
            rule: self.rule@,
        }
    }
}

/// View of what the log says, where it says something.
pub open spec fn log_view(log: Option<QueryLog>) -> Option<LogLine> {
    match log {
        Some(l) => Some(l@),
        None => None,
    }
}

/// What the log says of a question.
pub open spec fn log_line(q: Question, action: Seq<char>, rule: Seq<char>) -> LogLine {
    LogLine { domain: q.name, qtype: qtype_label(q.qtype), action, rule }
}

/// What the log says of a question.
fn make_log(q: &DnsQuestion, action: &'static str, rule: String) -> (r: QueryLog)
    ensures
        r@ == log_line(q@, action@, rule@),
{
    QueryLog { domain: q.name.clone(), qtype: qtype_str(q.qtype), action, rule }
}

/// What the client is sent and what is logged.
#[derive(Debug, PartialEq, Eq)]
pub struct Reply {
    pub bytes: Vec<u8>,
    pub log: Option<QueryLog>,
    /// Whether the log comes before the sending, so that it is written even
    /// where the sending fails.
    pub log_first: bool,
}

/// What the client is sent and what is logged, as a mathematical value.
#[verifier::ext_equal]
pub struct Answer {
    pub bytes: Seq<u8>,
    pub log: Option<LogLine>,
    pub log_first: bool,
}

impl View for Reply {
    type V = Answer;

    open spec fn view(&self) -> Answer {
        Answer { bytes: self.bytes@, log: log_view(self.log), log_first: self.log_first }
    }
}

/// A query that upstream has to answer.
pub struct PendingQuery {
    /// The query as the client sent it.
    pub msg: DnsMessage,
    /// How the client sent it, and how upstream is asked.
    pub transport: Transport,
    /// The bytes that upstream is asked with.
    pub packet: Vec<u8>,
}

/// What becomes of a query that has come in.
pub enum Started {
    /// It is answered at once.
    Answered(Reply),
    /// Upstream has to be asked; `log` is written before that.
    Pending { query: PendingQuery, log: Option<QueryLog> },
}

/// What becomes of a query that has come in, as a mathematical value.
pub enum Start {
    Answered(Answer),
    Pending { packet: Seq<u8>, log: Option<LogLine> },
}

/// The message that upstream is asked: the query, asking for DNSSEC records and
/// advertising the fixed payload size.
pub open spec fn forwarded(m: Message) -> Message {
    dns::with_opt_record(Message { edns_do: true, ..m }, EDNS_BUFFER_SIZE as u16)
}

/// What becomes of a query.
pub open spec fn started(transport: Transport, m: Message, rules: Rules) -> Start {
    let packet = dns::wire_message(forwarded(m));
    if m.questions.len() == 0 {
        Start::Pending { packet, log: None }
    } else {
        let q = m.questions[0];
        match blocklist::outcome(rules, text::lowercase(q.name)) {
            Outcome::Blocked(rule) => Start::Answered(
                Answer {
                    bytes: dns::wire_message(nxdomain(m)),
                    log: Some(log_line(q, "blocked"@, rule)),
                    log_first: transport == Transport::Udp,
                },
            ),
            Outcome::Allowed(rule) => Start::Pending {
                packet,
                log: Some(log_line(q, "allowed"@, rule)),
            },
            Outcome::Forwarded => Start::Pending { packet, log: None },
        }
    }
}

/// The payload size that a client can take over UDP: what its first OPT record
/// advertises, where that is between 1 and the largest size that is believed,
/// else the default.
pub open spec fn client_limit(m: Message) -> int {
    let i = dns::opt_index(m.additionals);
    if i < m.additionals.len() && 0 < m.additionals[i].rclass <= MAX_UDP_SIZE {
        m.additionals[i].rclass as int
    } else {
        DEFAULT_UDP_SIZE as int
    }
}

/// The payload size that a client can take over UDP.
pub fn client_udp_size(msg: &DnsMessage) -> (r: usize)
    ensures
        r == client_limit(msg@),
{
    let i = dns::find_opt(&msg.additionals);
    if i < msg.additionals.len() {
        let size: usize = msg.additionals[i].rclass as usize;
        assert(dns::record_views(msg.additionals@)[i as int] == msg.additionals@[i as int]@);
        if size > 0 && size <= MAX_UDP_SIZE {
            return size;
        }
    }
    DEFAULT_UDP_SIZE
}

/// The first alias in the answers that leads to a blocked name: the name and the
/// rule that blocks it.
pub open spec fn first_cloaked(answers: Seq<Record>, rules: Rules) -> Option<(Seq<char>, Seq<char>)>
    decreases answers.len(),
{
    if answers.len() == 0 {
        None
    } else {
        match first_cloaked(answers.drop_last(), rules) {
            Some(hit) => Some(hit),
            None => cloaked(answers.last(), rules),
        }
    }
}

/// The blocked name that a record is an alias of, and the rule that blocks it.
pub open spec fn cloaked(r: Record, rules: Rules) -> Option<(Seq<char>, Seq<char>)> {
    if r.rtype != dns::TYPE_CNAME {
        None
    } else if let Some(target) = r.cname_target {
        match blocklist::outcome(rules, text::lowercase(target)) {
            Outcome::Blocked(rule) => Some((target, rule)),
            _ => None,
        }
    } else {
        None
    }
}

/// The first alias in a response that leads to a blocked name. A response that
/// cannot be read has none.
pub open spec fn cloaked_in(resp: Seq<u8>, rules: Rules) -> Option<(Seq<char>, Seq<char>)> {
    match dns::message_at(resp) {
        Ok(m) => first_cloaked(m.answers, rules),
        Err(_) => None,
    }
}

/// What the log says of a query that was forwarded.
pub open spec fn forwarded_log(m: Message) -> Option<LogLine> {
    if m.questions.len() > 0 {
        Some(log_line(m.questions[0], "forwarded"@, ""@))
    } else {
        None
    }
}

/// How a query ends when upstream has sent `resp`.
pub open spec fn finished(
    transport: Transport,
    m: Message,
    resp: Seq<u8>,
    rules: Rules,
) -> Result<Answer, DnsError> {
    let hit = cloaked_in(resp, rules);
    if m.questions.len() > 0 && hit is Some {
        Ok(
            Answer {
                bytes: dns::wire_message(nxdomain(m)),
                log: Some(
                    log_line(
                        m.questions[0],
                        "blocked"@,
                        "cname:"@ + hit->Some_0.0 + " "@ + hit->Some_0.1,
                    ),
                ),
                log_first: true,
            },
        )
    } else if transport == Transport::Udp && resp.len() > client_limit(m) {
        match truncated_bytes(resp) {
            Ok(bytes) => Ok(Answer { bytes, log: forwarded_log(m), log_first: false }),
            Err(e) => Err(e),
        }
    } else {
        Ok(Answer { bytes: resp, log: forwarded_log(m), log_first: false })
    }
}

/// The first alias in the answers that leads to a blocked name.
fn find_cloaked(answers: &[DnsResourceRecord], rules: &Blocklist) -> (r: Option<(String, String)>)
    ensures
        match r {
            Some((target, rule)) => first_cloaked(dns::record_views(answers@), rules@) == Some(
                (target@, rule@),
            ),
            None => first_cloaked(dns::record_views(answers@), rules@) is None,
        },
{
    let ghost all = dns::record_views(answers@);
    for i in 0..answers.len()
        invariant
            all == dns::record_views(answers@),
            first_cloaked(all.take(i as int), rules@) is None,
    {
        assert(all.take(i + 1).drop_last() =~= all.take(i as int));
        assert(all[i as int] == answers@[i as int]@);
        if answers[i].rtype == dns::TYPE_CNAME {
            if let Some(target) = &answers[i].cname_target {
                if let MatchOutcome::Blocked(rule) = rules.check(target.as_str()) {
                    proof {
                        lemma_first_cloaked(all, rules@, i + 1);
                    }
                    return Some((target.clone(), rule));
                }
            }
        }
    }
    assert(all.take(all.len() as int) =~= all);
    None
}

proof fn lemma_first_cloaked(answers: Seq<Record>, rules: Rules, n: int)
    requires
        0 <= n <= answers.len(),
        first_cloaked(answers.take(n), rules) is Some,
    ensures
        first_cloaked(answers, rules) == first_cloaked(answers.take(n), rules),
    decreases answers.len(),
{
    if n < answers.len() {
        assert(answers.drop_last().take(n) =~= answers.take(n));
        lemma_first_cloaked(answers.drop_last(), rules, n);
    } else {
        assert(answers.take(n) =~= answers);
    }
}

/// The bytes that upstream is asked with.
fn build_forwarded(msg: &DnsMessage) -> (r: Result<Vec<u8>, DnsError>)
    requires
        msg.header.arcount < u16::MAX,
    ensures
        r matches Ok(b) && b@ == dns::wire_message(forwarded(msg@)),
{
    let mut out = msg.clone();
    out.edns_do = true;
    assert(out@ =~= (Message { edns_do: true, ..msg@ }));
    out.add_opt_record(EDNS_BUFFER_SIZE as u16);
    out.serialize()
}

/// Begins a query: blocked names are answered at once, other queries go to
/// upstream. Fails where the packet cannot be read.
pub fn start_query(transport: Transport, packet: &[u8], rules: &Blocklist) -> (r: Result<
    Started,
    DnsError,
>)
    requires
        packet@.len() <= MAX_MESSAGE,
    ensures
        match dns::message_at(packet@) {
            Err(e) => r == Err::<Started, DnsError>(e),
            Ok(m) => {
                &&& r is Ok
                &&& match (r->Ok_0, started(transport, m, rules@)) {
                    (Started::Answered(reply), Start::Answered(answer)) => reply@ == answer,
                    (
                        Started::Pending { query, log },
                        Start::Pending { packet: bytes, log: line },
                    ) => {
                        &&& query.msg@ == m
                        &&& query.transport == transport
                        &&& query.packet@ == bytes
                        &&& log_view(log) == line
                    },
                    _ => false,
                }
            },
        },
{
    let msg = DnsMessage::parse(packet)?;
    proof {
        wire::law_parsed_counts(packet@);
    }
    let mut log: Option<QueryLog> = None;
    if msg.questions.len() > 0 {
        let q = &msg.questions[0];
        assert(msg@.questions[0] == q@);
        match rules.check(q.name.as_str()) {
            MatchOutcome::Blocked(rule) => {
                let bytes = build_nxdomain(&msg)?;
                let log_first = match transport {
                    Transport::Udp => true,
                    Transport::Tcp => false,
                };
                return Ok(
                    Started::Answered(
                        Reply { bytes, log: Some(make_log(q, "blocked", rule)), log_first },
                    ),
                );
            },
            MatchOutcome::Allowed(rule) => {
                log = Some(make_log(q, "allowed", rule));
            },
            MatchOutcome::Forwarded => {},
        }
    }
    let bytes = build_forwarded(&msg)?;
    Ok(Started::Pending { query: PendingQuery { msg, transport, packet: bytes }, log })
}

impl PendingQuery {
    /// Whether upstream has to be asked again, over TCP: it was asked over UDP
    /// and its response is truncated.
    pub fn needs_tcp(&self, resp: &[u8]) -> (r: bool)
        ensures
            r == (self.transport == Transport::Udp && is_truncated(resp@)),
    {
        match self.transport {
            Transport::Udp => tc_bit_set(resp),
            Transport::Tcp => false,
        }
    }

    /// Ends the query with the response of upstream. A response that leads to a
    /// blocked name is answered as a blocked query; one that a UDP client cannot
    /// take is cut down, which fails where it cannot be read; any other is
    /// relayed as it is.
    pub fn finish(&self, resp: Vec<u8>, rules: &Blocklist) -> (r: Result<Reply, DnsError>)
        ensures
            match finished(self.transport, self.msg@, resp@, rules@) {
                Ok(answer) => r matches Ok(reply) && reply@ == answer,
                Err(e) => r == Err::<Reply, DnsError>(e),
            },
    {
        if self.msg.questions.len() > 0 {
            let q = &self.msg.questions[0];
            assert(self.msg@.questions[0] == q@);
            if let Ok(resp_msg) = DnsMessage::parse(&resp) {
                if let Some((target, rule)) = find_cloaked(&resp_msg.answers, rules) {
                    let mut why = "cname:".to_owned();
                    why.append(target.as_str());
                    why.append(" ");
                    why.append(rule.as_str());
                    let bytes = build_nxdomain(&self.msg)?;
                    return Ok(
                        Reply { bytes, log: Some(make_log(q, "blocked", why)), log_first: true },
                    );
                }
            }
        }
        let log = self.log_forwarded();
        let over = match self.transport {
            Transport::Udp => resp.len() > client_udp_size(&self.msg),
            Transport::Tcp => false,
        };
        if over {
            let bytes = truncate_response(&resp)?;
            Ok(Reply { bytes, log, log_first: false })
        } else {
            Ok(Reply { bytes: resp, log, log_first: false })
        }
    }

    /// What the log says once the query was forwarded.
    fn log_forwarded(&self) -> (r: Option<QueryLog>)
        ensures
            log_view(r) == forwarded_log(self.msg@),
    {
        if self.msg.questions.len() > 0 {
            assert(self.msg@.questions[0] == self.msg.questions@[0]@);
            Some(make_log(&self.msg.questions[0], "forwarded", "".to_owned()))
        } else {
            None
        }
    }
}

/// The types of queries that have a name, by their numbers; any other is `OTHER`.
pub proof fn law_type_names(qtype: u16)
    ensures
        qtype_label(1) == "A"@ && qtype_label(28) == "AAAA"@ && qtype_label(5) == "CNAME"@,
        qtype_label(2) == "NS"@ && qtype_label(6) == "SOA"@ && qtype_label(12) == "PTR"@,
        qtype_label(15) == "MX"@ && qtype_label(16) == "TXT"@ && qtype_label(33) == "SRV"@,
        qtype_label(41) == "OPT"@ && qtype_label(43) == "DS"@ && qtype_label(46) == "RRSIG"@,
        qtype_label(47) == "NSEC"@ && qtype_label(48) == "DNSKEY"@ && qtype_label(50) == "NSEC3"@,
        qtype_label(52) == "TLSA"@ && qtype_label(255) == "ANY"@,
        !named_type(qtype) ==> qtype_label(qtype) == "OTHER"@,
{
}

/// Whether a type of queries has a name.
pub open spec fn named_type(qtype: u16) -> bool {
    ||| qtype == 1 || qtype == 2 || qtype == 5 || qtype == 6 || qtype == 12 || qtype == 15
    ||| qtype == 16 || qtype == 28 || qtype == 33 || qtype == 41 || qtype == 43 || qtype == 46
    ||| qtype == 47 || qtype == 48 || qtype == 50 || qtype == 52 || qtype == 255
}

/// A message too short to hold an identifier has 0, one too short to hold flags is not
/// truncated, and otherwise the identifier is its first two bytes and the TC flag the
/// second lowest bit of its third byte.
pub proof fn law_message_starts(a: u8, b: u8, c: u8, d: u8, rest: Seq<u8>)
    ensures
        message_id(Seq::empty()) == 0,
        message_id(seq![a]) == 0,
        message_id(seq![a, b] + rest) == a * 256 + b,
        !is_truncated(seq![a, b, c]),
        is_truncated(seq![a, b, c, d] + rest) <==> (c / 2) % 2 == 1,
{
    let flags = dns::be16(c, d);
    assert(flags == c * 256 + d);
    assert(flags & 0x0200u16 != 0 <==> (flags / 512) % 2 == 1) by (bit_vector);
    assert(flags / 512 == c / 2) by {
        assert((c * 256 + d) / 512 == (c / 2) as int);
    }
}

/// The limits: the sizes of messages over UDP that are advertised, taken for granted and
/// believed, the largest message, and how many idle connections are kept.
pub proof fn law_limits()
    ensures
        EDNS_BUFFER_SIZE == 1232,
        DEFAULT_UDP_SIZE == 512,
        MAX_UDP_SIZE == 4096,
        MAX_MESSAGE == 65535,
        UDP_POOL_CAP == 16,
        TCP_POOL_CAP == 8,
{
}

} // verus!
