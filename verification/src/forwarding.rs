//! What clients and the upstream resolver can rely on.
use vstd::prelude::*;
use crate::blocklist;
use crate::blocklist::{Outcome, Rules};
use crate::dns;
use crate::dns::{DnsError, DnsHeader, Message, Record};
use crate::filtering;
use crate::resolve;
use crate::text;
use crate::upstream;
use crate::upstream::{Answer, Start, Transport};
use crate::wire;

verus! {

/// The name that a query asks for, in lowercase.
pub open spec fn asked_name(m: Message) -> Seq<char> {
    text::lowercase(m.questions[0].name)
}

/// A query for a blocked name is answered at once and upstream is not asked;
/// any other query is put to upstream.
pub proof fn law_blocked_answered_at_once(transport: Transport, m: Message, rules: Rules)
    ensures
        upstream::started(transport, m, rules) is Answered <==> m.questions.len() > 0
            && blocklist::outcome(rules, asked_name(m)) is Blocked,
        upstream::started(transport, m, rules) matches Start::Answered(a) ==> a.bytes
            == dns::wire_message(upstream::nxdomain(m)),
        upstream::started(transport, m, rules) matches Start::Pending { packet, .. } ==> packet
            == dns::wire_message(upstream::forwarded(m)),
{
}

/// The answer to a blocked query is read as: the identifier of the query, the
/// first question of the query, no records, and the code for a domain that does
/// not exist.
pub proof fn law_blocked_answer(data: Seq<u8>, m: Message)
    requires
        dns::message_at(data) == Ok::<Message, DnsError>(m),
        m.questions.len() > 0,
    ensures
        dns::message_at(dns::wire_message(upstream::nxdomain(m))) == Ok::<Message, DnsError>(
            Message {
                header: DnsHeader {
                    id: m.header.id,
                    flags: 0x8183,
                    qdcount: 1,
                    ancount: 0,
                    nscount: 0,
                    arcount: 0,
                },
                questions: seq![wire::normal_question(m.questions[0])],
                answers: Seq::empty(),
                authorities: Seq::empty(),
                additionals: Seq::empty(),
                edns_do: false,
            },
        ),
        upstream::NXDOMAIN_FLAGS % 16 == 3,
{
    wire::law_parsed_fits(data);
    assert(wire::questions_fit(m.questions));
    assert(wire::name_fits(m.questions[0].name));
    wire::law_one_question_message(upstream::nxdomain(m));
}

/// What upstream is asked is read as the query of the client: its identifier,
/// flags, questions and records. It asks for DNSSEC records, whether or not the
/// client did: its first OPT record has the DO bit set, the other bits of the TTL
/// field and the options as the client's OPT record has them (clear and none
/// where there is no such record), and advertises the fixed payload size.
pub proof fn law_forwarded_query(data: Seq<u8>, m: Message)
    requires
        dns::message_at(data) == Ok::<Message, DnsError>(m),
        data.len() <= upstream::MAX_MESSAGE,
    ensures
        dns::message_at(dns::wire_message(upstream::forwarded(m))) matches Ok(back) && {
            let i = dns::opt_index(m.additionals);
            &&& wire::message_reads_as(upstream::forwarded(m), back)
            &&& back.header.id == m.header.id
            &&& back.header.flags == m.header.flags
            &&& back.questions == wire::normal_questions(m.questions)
            &&& wire::records_read_as(m.answers, back.answers)
            &&& wire::records_read_as(m.authorities, back.authorities)
            &&& back.edns_do
            &&& forall|j: int| 0 <= j < i ==> (#[trigger] m.additionals[j]).rtype != 41
            &&& back.additionals.len() == if i < m.additionals.len() {
                m.additionals.len()
            } else {
                m.additionals.len() + 1
            }
            &&& i < back.additionals.len()
            &&& back.additionals[i].rtype == 41
            &&& back.additionals[i].rclass == 1232
            &&& back.additionals[i].ttl & 0x8000 != 0
            &&& back.additionals[i].ttl & 0xffff_7fff == if i < m.additionals.len() {
                m.additionals[i].ttl & 0xffff_7fff
            } else {
                0
            }
            &&& back.additionals[i].rdata == if i < m.additionals.len() {
                m.additionals[i].rdata
            } else {
                Seq::empty()
            }
            &&& forall|j: int|
                0 <= j < m.additionals.len() && j != i ==> wire::record_reads_as(
                    m.additionals[j],
                    #[trigger] back.additionals[j],
                )
        },
{
    wire::law_parsed_fits(data);
    wire::law_parsed_counts(data);
    let f = upstream::forwarded(m);
    let i = dns::opt_index(m.additionals);
    lemma_opt_index_bounds(m.additionals);
    assert forall|j: int| 0 <= j < f.additionals.len() implies wire::record_fits(
        #[trigger] f.additionals[j],
    ) by {
        if j < m.additionals.len() {
            assert(wire::record_fits(m.additionals[j]));
            if j == i {
                assert(f.additionals[j].name == m.additionals[j].name);
                assert(f.additionals[j].rdata == m.additionals[j].rdata);
            }
        } else {
            lemma_root_fits();
        }
    }
    assert(wire::message_fits(f));
    wire::law_message_round_trip(f);
    let back = dns::message_at(dns::wire_message(f))->Ok_0;
    assert(wire::record_reads_as(f.additionals[i], back.additionals[i]));
    let ttl = if i < m.additionals.len() {
        m.additionals[i].ttl
    } else {
        0u32
    };
    assert((ttl | 0x8000u32) & 0x8000u32 != 0 && (ttl | 0x8000u32) & 0xffff_7fffu32 == ttl
        & 0xffff_7fffu32) by (bit_vector);
    assert(0u32 | 0x8000u32 == 0x8000u32 && 0u32 & 0xffff_7fffu32 == 0u32) by (bit_vector);
    assert(f.additionals[i].ttl == ttl | 0x8000u32);
    assert(dns::wants_dnssec(f.additionals[i]));
    assert forall|j: int|
        0 <= j < m.additionals.len() && j != i implies wire::record_reads_as(
        m.additionals[j],
        #[trigger] back.additionals[j],
    ) by {
        assert(f.additionals[j] == m.additionals[j]);
        assert(wire::record_reads_as(f.additionals[j], back.additionals[j]));
    }
}

proof fn lemma_root_fits()
    ensures
        wire::name_fits(Seq::<char>::empty()),
{
    let p = text::pieces(Seq::<char>::empty(), '.');
    assert(p =~= seq![Seq::<char>::empty()]);
    assert(vstd::utf8::encode_utf8(Seq::<char>::empty()).len() == 0);
}

/// The place of the first OPT record is one where an OPT record stands, or the
/// number of records, and no OPT record stands before it.
pub proof fn lemma_opt_index_bounds(rs: Seq<Record>)
    ensures
        0 <= dns::opt_index(rs) <= rs.len(),
        dns::opt_index(rs) < rs.len() ==> rs[dns::opt_index(rs)].rtype == 41,
        forall|j: int| 0 <= j < dns::opt_index(rs) ==> (#[trigger] rs[j]).rtype != 41,
    decreases rs.len(),
{
    if rs.len() > 0 && rs[0].rtype != dns::TYPE_OPT {
        lemma_opt_index_bounds(rs.drop_first());
        assert forall|j: int| 0 <= j < dns::opt_index(rs) implies (#[trigger] rs[j]).rtype != 41 by {
            if j > 0 {
                assert(rs[j] == rs.drop_first()[j - 1]);
            }
        }
    }
}

/// A response without an alias of a blocked name is relayed to the byte,
/// wherever the client can take it. That is so, too, for a response that cannot
/// be read.
pub proof fn law_relayed_as_is(transport: Transport, m: Message, resp: Seq<u8>, rules: Rules)
    requires
        upstream::cloaked_in(resp, rules) is None || m.questions.len() == 0,
        transport == Transport::Tcp || resp.len() <= upstream::client_limit(m),
    ensures
        upstream::finished(transport, m, resp, rules) == Ok::<Answer, DnsError>(
            Answer { bytes: resp, log: upstream::forwarded_log(m), log_first: false },
        ),
{
}

/// An alias of a blocked name anywhere among the answers has the query answered
/// as a blocked one.
pub proof fn law_cloaked_blocked(
    transport: Transport,
    m: Message,
    resp: Seq<u8>,
    back: Message,
    i: int,
    rules: Rules,
)
    requires
        m.questions.len() > 0,
        dns::message_at(resp) == Ok::<Message, DnsError>(back),
        0 <= i < back.answers.len(),
        upstream::cloaked(back.answers[i], rules) is Some,
    ensures
        upstream::finished(transport, m, resp, rules) matches Ok(a) && a.bytes == dns::wire_message(
            upstream::nxdomain(m),
        ),
{
    lemma_some_cloaked(back.answers, rules, i);
}

proof fn lemma_some_cloaked(answers: Seq<Record>, rules: Rules, i: int)
    requires
        0 <= i < answers.len(),
        upstream::cloaked(answers[i], rules) is Some,
    ensures
        upstream::first_cloaked(answers, rules) is Some,
    decreases answers.len(),
{
    if i < answers.len() - 1 {
        lemma_some_cloaked(answers.drop_last(), rules, i);
    }
}

/// A query is answered as a blocked one, once upstream has responded, only
/// where an alias among the answers leads to a blocked name.
pub proof fn law_cloaked_only(answers: Seq<Record>, rules: Rules)
    ensures
        upstream::first_cloaked(answers, rules) is Some ==> exists|i: int|
            0 <= i < answers.len() && upstream::cloaked(#[trigger] answers[i], rules)
                == upstream::first_cloaked(answers, rules),
    decreases answers.len(),
{
    if answers.len() > 0 {
        let front = answers.drop_last();
        law_cloaked_only(front, rules);
        if upstream::first_cloaked(front, rules) is Some {
            let i = choose|i: int|
                0 <= i < front.len() && upstream::cloaked(#[trigger] front[i], rules)
                    == upstream::first_cloaked(front, rules);
            assert(answers[i] == front[i]);
        } else if upstream::first_cloaked(answers, rules) is Some {
            assert(answers[answers.len() - 1] == answers.last());
        }
    }
}

proof fn lemma_opt_records(rs: Seq<Record>)
    ensures
        upstream::opt_records(rs).len() <= rs.len(),
        forall|i: int|
            0 <= i < upstream::opt_records(rs).len() ==> {
                &&& #[trigger] upstream::opt_records(rs)[i].rtype == dns::TYPE_OPT
                &&& rs.contains(upstream::opt_records(rs)[i])
            },
    decreases rs.len(),
{
    if rs.len() > 0 {
        let front = rs.drop_last();
        lemma_opt_records(front);
        assert forall|x: Record| front.contains(x) implies rs.contains(x) by {
            let k = front.index_of(x);
            assert(rs[k] == x);
        }
        assert(rs[rs.len() - 1] == rs.last());
        let kept = upstream::opt_records(rs);
        assert forall|i: int| 0 <= i < kept.len() implies {
            &&& #[trigger] kept[i].rtype == dns::TYPE_OPT
            &&& rs.contains(kept[i])
        } by {
            if i < upstream::opt_records(front).len() {
                assert(kept[i] == upstream::opt_records(front)[i]);
            }
        }
    }
}

/// A response that was cut down says so, and is read as the identifier and the
/// questions of the response, no answers, no authorities, and OPT records only.
pub proof fn law_truncated_response(resp: Seq<u8>, m: Message)
    requires
        dns::message_at(resp) == Ok::<Message, DnsError>(m),
    ensures
        upstream::truncated_bytes(resp) matches Ok(cut) && {
            &&& upstream::is_truncated(cut)
            &&& dns::message_at(cut) matches Ok(back) && {
                &&& back.header == dns::outgoing_header(upstream::truncated(m))
                &&& back.header.id == m.header.id
                &&& back.header.flags == m.header.flags | 0x0200
                &&& back.questions == wire::normal_questions(m.questions)
                &&& back.answers.len() == 0
                &&& back.authorities.len() == 0
                &&& wire::records_read_as(upstream::opt_records(m.additionals), back.additionals)
            }
        },
{
    wire::law_parsed_fits(resp);
    wire::law_parsed_counts(resp);
    let t = upstream::truncated(m);
    let cut = dns::wire_message(t);
    lemma_opt_records(m.additionals);
    assert forall|i: int| 0 <= i < t.additionals.len() implies wire::record_fits(
        #[trigger] t.additionals[i],
    ) by {
        let kept = upstream::opt_records(m.additionals);
        assert(kept[i].rtype == dns::TYPE_OPT);
        let k = m.additionals.index_of(t.additionals[i]);
        assert(wire::record_fits(m.additionals[k]));
    }
    assert(wire::message_fits(t));
    wire::law_message_round_trip(t);
    let back = dns::message_at(cut)->Ok_0;
    let flags = m.header.flags;
    assert((flags | 0x0200u16) & 0x0200u16 != 0) by (bit_vector);
    assert(dns::header_at(cut, 0) is Ok);
    assert(back.header.flags == dns::be16(cut[2], cut[3]));
}

proof fn lemma_only_opt_records(rs: Seq<Record>)
    requires
        forall|i: int| 0 <= i < rs.len() ==> #[trigger] rs[i].rtype == dns::TYPE_OPT,
    ensures
        upstream::opt_records(rs) == rs,
    decreases rs.len(),
{
    if rs.len() == 0 {
        assert(rs =~= Seq::empty());
    } else {
        let front = rs.drop_last();
        assert forall|i: int| 0 <= i < front.len() implies #[trigger] front[i].rtype
            == dns::TYPE_OPT by {
            assert(front[i] == rs[i]);
        }
        lemma_only_opt_records(front);
        assert(rs[rs.len() - 1].rtype == dns::TYPE_OPT);
        assert(rs =~= front.push(rs.last()));
    }
}

/// Cutting down a response that was cut down already changes nothing.
pub proof fn law_truncated_twice(resp: Seq<u8>, cut: Seq<u8>)
    requires
        upstream::truncated_bytes(resp) == Ok::<Seq<u8>, DnsError>(cut),
    ensures
        upstream::truncated_bytes(cut) == Ok::<Seq<u8>, DnsError>(cut),
{
    let m = dns::message_at(resp)->Ok_0;
    law_truncated_response(resp, m);
    lemma_opt_records(m.additionals);
    let t = upstream::truncated(m);
    let back = dns::message_at(cut)->Ok_0;
    let kept = t.additionals;
    assert(t.additionals == upstream::opt_records(m.additionals));
    assert forall|i: int| 0 <= i < back.additionals.len() implies #[trigger] back.additionals[
        i
    ].rtype == dns::TYPE_OPT by {
        assert(wire::record_reads_as(kept[i], back.additionals[i]));
        assert(upstream::opt_records(m.additionals)[i].rtype == dns::TYPE_OPT);
    }
    lemma_only_opt_records(back.additionals);
    let again = upstream::truncated(back);
    wire::law_read_records_bytes(kept, back.additionals);
    wire::law_normal_questions_bytes(m.questions);
    let flags = m.header.flags;
    assert((flags | 0x0200u16) | 0x0200u16 == flags | 0x0200u16) by (bit_vector);
    assert(dns::outgoing_header(again) == dns::outgoing_header(t));
    reveal(dns::wire_message);
}

/// A message framed for TCP gives its length, then itself.
pub proof fn law_frame_round_trip(msg: Seq<u8>)
    requires
        msg.len() <= upstream::MAX_MESSAGE,
    ensures
        dns::be16(upstream::framed(msg)[0], upstream::framed(msg)[1]) == msg.len(),
        upstream::framed(msg).skip(2) == msg,
{
    assert(upstream::framed(msg).skip(2) =~= msg);
}

// ---------------------------------------------------------------------------
// Cloaked names
// ---------------------------------------------------------------------------

/// Whether a record is an alias of a name that a block rule and no allow rule
/// speaks of.
pub open spec fn blocked_alias(r: Record, rules: Rules) -> bool {
    &&& r.rtype == 5
    &&& r.cname_target matches Some(t)
    &&& filtering::block_hit(rules, text::lowercase(t))
    &&& !filtering::allow_hit(rules, text::lowercase(t))
}

/// Whether a response can be read and one of its answers is an alias of a blocked
/// name.
pub open spec fn response_cloaks(resp: Seq<u8>, rules: Rules) -> bool {
    dns::message_at(resp) matches Ok(back) && exists|i: int|
        0 <= i < back.answers.len() && blocked_alias(#[trigger] back.answers[i], rules)
}

proof fn lemma_cloaked(r: Record, rules: Rules)
    ensures
        upstream::cloaked(r, rules) is Some <==> blocked_alias(r, rules),
        upstream::cloaked(r, rules) matches Some((t, rule)) ==> r.cname_target == Some(t)
            && blocklist::outcome(rules, text::lowercase(t)) == Outcome::Blocked(rule),
{
    if let Some(t) = r.cname_target {
        filtering::law_outcome(rules, text::lowercase(t));
    }
}

/// The first cloaked name among answers is that of the first alias of a blocked
/// name.
proof fn lemma_first_cloaked_place(answers: Seq<Record>, rules: Rules)
    ensures
        match upstream::first_cloaked(answers, rules) {
            Some((t, rule)) => exists|i: int|
                {
                    &&& 0 <= i < answers.len()
                    &&& blocked_alias(#[trigger] answers[i], rules)
                    &&& forall|j: int| 0 <= j < i ==> !blocked_alias(#[trigger] answers[j], rules)
                    &&& answers[i].cname_target == Some(t)
                    &&& blocklist::outcome(rules, text::lowercase(t)) == Outcome::Blocked(rule)
                },
            None => forall|i: int|
                0 <= i < answers.len() ==> !blocked_alias(#[trigger] answers[i], rules),
        },
    decreases answers.len(),
{
    if answers.len() > 0 {
        let front = answers.drop_last();
        lemma_first_cloaked_place(front, rules);
        lemma_cloaked(answers.last(), rules);
        if let Some((t, rule)) = upstream::first_cloaked(front, rules) {
            let i = choose|i: int|
                {
                    &&& 0 <= i < front.len()
                    &&& blocked_alias(#[trigger] front[i], rules)
                    &&& forall|j: int| 0 <= j < i ==> !blocked_alias(#[trigger] front[j], rules)
                    &&& front[i].cname_target == Some(t)
                    &&& blocklist::outcome(rules, text::lowercase(t)) == Outcome::Blocked(rule)
                };
            assert(answers[i] == front[i]);
            assert forall|j: int| 0 <= j < i implies !blocked_alias(#[trigger] answers[j], rules) by {
                assert(front[j] == answers[j]);
            }
        } else {
            assert forall|j: int| 0 <= j < front.len() implies !blocked_alias(
                #[trigger] answers[j],
                rules,
            ) by {
                assert(front[j] == answers[j]);
            }
            if let Some((t, rule)) = upstream::first_cloaked(answers, rules) {
                let i = answers.len() - 1;
                assert(blocked_alias(answers[i], rules));
            }
        }
    }
}

/// Once upstream has responded, a query is answered as a blocked one exactly where
/// one of the answers is an alias of a name that some block rule and no allow rule
/// speaks of. The log then names the first such target and the rule that blocks
/// it. Any other response goes to the client: as it is over TCP and where it is
/// within the limit of the client, else cut down.
pub proof fn law_cloaking(transport: Transport, m: Message, resp: Seq<u8>, rules: Rules)
    ensures
        m.questions.len() > 0 && response_cloaks(resp, rules) ==> {
            let back = dns::message_at(resp)->Ok_0;
            &&& upstream::finished(transport, m, resp, rules) matches Ok(a)
            &&& a.bytes == dns::wire_message(upstream::nxdomain(m))
            &&& a.log matches Some(line)
            &&& line.domain == m.questions[0].name
            &&& line.action == "blocked"@
            &&& exists|i: int|
                {
                    let name = back.answers[i].cname_target->Some_0;
                    let why = blocklist::outcome(rules, text::lowercase(name));
                    &&& 0 <= i < back.answers.len()
                    &&& blocked_alias(#[trigger] back.answers[i], rules)
                    &&& forall|j: int|
                        0 <= j < i ==> !blocked_alias(#[trigger] back.answers[j], rules)
                    &&& why is Blocked
                    &&& line.rule == "cname:"@ + name + " "@ + why->Blocked_0
                }
        },
        m.questions.len() == 0 || !response_cloaks(resp, rules) ==> {
            let whole = transport == Transport::Tcp || resp.len() <= upstream::client_limit(m);
            &&& whole ==> (upstream::finished(transport, m, resp, rules) matches Ok(a) && a.bytes
                == resp)
            &&& !whole ==> match upstream::truncated_bytes(resp) {
                Ok(cut) => upstream::finished(transport, m, resp, rules) matches Ok(a) && a.bytes
                    == cut,
                Err(e) => upstream::finished(transport, m, resp, rules) == Err::<Answer, DnsError>(
                    e,
                ),
            }
            &&& upstream::finished(transport, m, resp, rules) matches Ok(a) ==> match a.log {
                Some(line) => {
                    &&& m.questions.len() > 0
                    &&& line.domain == m.questions[0].name
                    &&& line.action == "forwarded"@
                    &&& line.rule == ""@
                },
                None => m.questions.len() == 0,
            }
        },
{
    if let Ok(back) = dns::message_at(resp) {
        lemma_first_cloaked_place(back.answers, rules);
        if let Some((t, rule)) = upstream::first_cloaked(back.answers, rules) {
            let i = choose|i: int|
                {
                    &&& 0 <= i < back.answers.len()
                    &&& blocked_alias(#[trigger] back.answers[i], rules)
                    &&& forall|j: int|
                        0 <= j < i ==> !blocked_alias(#[trigger] back.answers[j], rules)
                    &&& back.answers[i].cname_target == Some(t)
                    &&& blocklist::outcome(rules, text::lowercase(t)) == Outcome::Blocked(rule)
                };
            assert(blocked_alias(back.answers[i], rules));
            assert(blocklist::outcome(
                rules,
                text::lowercase(back.answers[i].cname_target->Some_0),
            ) == Outcome::Blocked(rule));
        }
    }
}

// ---------------------------------------------------------------------------
// Limits, logs and identifiers
// ---------------------------------------------------------------------------

/// A client takes 512 bytes over UDP, unless its first OPT record advertises
/// another size between 1 and 4096.
pub proof fn law_client_limit(m: Message, i: int)
    requires
        0 <= i <= m.additionals.len(),
        forall|j: int| 0 <= j < i ==> (#[trigger] m.additionals[j]).rtype != 41,
        i < m.additionals.len() ==> m.additionals[i].rtype == 41,
    ensures
        i == m.additionals.len() ==> upstream::client_limit(m) == 512,
        i < m.additionals.len() && 1 <= m.additionals[i].rclass <= 4096 ==> upstream::client_limit(
            m,
        ) == m.additionals[i].rclass,
        i < m.additionals.len() && !(1 <= m.additionals[i].rclass <= 4096)
            ==> upstream::client_limit(m) == 512,
{
    dns::lemma_opt_index(m.additionals, i);
}

/// What goes to a client over UDP is within its limit, or says that it was cut
/// down, or is the answer to a blocked query.
pub proof fn law_udp_answer_bounded(m: Message, resp: Seq<u8>, rules: Rules)
    ensures
        upstream::finished(Transport::Udp, m, resp, rules) matches Ok(a) ==> {
            ||| a.bytes.len() <= upstream::client_limit(m)
            ||| upstream::is_truncated(a.bytes)
            ||| a.bytes == dns::wire_message(upstream::nxdomain(m))
        },
{
    if let Ok(back) = dns::message_at(resp) {
        law_truncated_response(resp, back);
    }
}

/// What the log says when a query comes in: a blocked or an allowed name with the
/// rule that decides, and nothing of another.
pub proof fn law_start_log(transport: Transport, m: Message, rules: Rules)
    ensures
        m.questions.len() == 0 ==> (upstream::started(transport, m, rules) matches Start::Pending {
            log,
            ..
        } && log is None),
        m.questions.len() > 0 ==> match blocklist::outcome(rules, asked_name(m)) {
            Outcome::Blocked(rule) => upstream::started(transport, m, rules) matches Start::Answered(
                a,
            ) && (a.log matches Some(l) && l.domain == m.questions[0].name && l.action
                == "blocked"@ && l.rule == rule),
            Outcome::Allowed(rule) => upstream::started(transport, m, rules) matches Start::Pending {
                log,
                ..
            } && (log matches Some(l) && l.domain == m.questions[0].name && l.action == "allowed"@
                && l.rule == rule),
            Outcome::Forwarded => upstream::started(transport, m, rules) matches Start::Pending {
                log,
                ..
            } && log is None,
        },
{
}

/// The identifier of a written message is that of its header, and its TC flag is
/// bit 9 of its flags.
pub proof fn law_message_marks(m: Message)
    requires
        m.additionals.len() <= 65535,
    ensures
        upstream::message_id(dns::wire_message(m)) == m.header.id,
        upstream::is_truncated(dns::wire_message(m)) <==> m.header.flags & 0x0200 != 0,
{
    wire::law_message_layout(m);
    let b = dns::wire_message(m);
    assert(wire::two_bytes(b, 0) == m.header.id);
    assert(wire::two_bytes(b, 2) == m.header.flags);
}

/// The identifier of the bytes of a message is that of the message.
pub proof fn law_identifier_read(data: Seq<u8>, m: Message)
    requires
        dns::message_at(data) == Ok::<Message, DnsError>(m),
    ensures
        upstream::message_id(data) == m.header.id,
{
    assert(dns::header_at(data, 0) is Ok);
}

/// The answer to a blocked query and the query put to upstream carry the
/// identifier of the query.
pub proof fn law_identifier_kept(m: Message)
    requires
        m.additionals.len() < 65535,
    ensures
        upstream::message_id(dns::wire_message(upstream::nxdomain(m))) == m.header.id,
        upstream::message_id(dns::wire_message(upstream::forwarded(m))) == m.header.id,
{
    lemma_opt_index_bounds(m.additionals);
    law_message_marks(upstream::nxdomain(m));
    law_message_marks(upstream::forwarded(m));
}

/// Of the additional records of a response, a cut-down one keeps the OPT records,
/// all of them and no others, in their order.
pub proof fn law_opt_records_kept(a: Seq<Record>, b: Seq<Record>, r: Record)
    ensures
        upstream::opt_records(a + b) == upstream::opt_records(a) + upstream::opt_records(b),
        upstream::opt_records(seq![r]) == if r.rtype == 41 {
            seq![r]
        } else {
            Seq::empty()
        },
    decreases b.len(),
{
    assert(seq![r].drop_last() =~= Seq::empty());
    reveal_with_fuel(upstream::opt_records, 2);
    assert(Seq::<Record>::empty().push(r) =~= seq![r]);
    if b.len() == 0 {
        assert(a + b =~= a);
        assert(upstream::opt_records(a) + upstream::opt_records(b) =~= upstream::opt_records(a));
    } else {
        law_opt_records_kept(a, b.drop_last(), r);
        assert((a + b).drop_last() =~= a + b.drop_last());
        assert((a + b).last() == b.last());
        assert(upstream::opt_records(a + b) =~= upstream::opt_records(a) + upstream::opt_records(
            b,
        ));
    }
}

// ---------------------------------------------------------------------------
// Addresses of hosts
// ---------------------------------------------------------------------------

/// The query for the addresses of a host is read as one question for that host, of
/// type A and class IN, that asks for recursion.
pub proof fn law_address_query(id: u16, host: Seq<char>)
    requires
        wire::name_fits(host),
    ensures
        dns::message_at(dns::wire_message(resolve::address_query(id, host))) matches Ok(back) && {
            &&& back.header.id == id
            &&& back.header.flags == 0x0100
            &&& back.questions.len() == 1
            &&& back.questions[0].name == wire::normal_name(host)
            &&& back.questions[0].qtype == 1
            &&& back.questions[0].qclass == 1
            &&& back.answers.len() == 0
        },
{
    wire::law_one_question_message(resolve::address_query(id, host));
}

/// The addresses that records hold: of each record of type A with four bytes of
/// data that data, of others none, in the order of the records.
pub proof fn law_addresses(a: Seq<Record>, b: Seq<Record>, r: Record)
    ensures
        resolve::addresses(a + b) == resolve::addresses(a) + resolve::addresses(b),
        resolve::addresses(seq![r]) == if r.rtype == 1 && r.rdata.len() == 4 {
            seq![r.rdata]
        } else {
            Seq::empty()
        },
    decreases b.len(),
{
    assert(seq![r].drop_last() =~= Seq::empty());
    reveal_with_fuel(resolve::addresses, 2);
    assert(Seq::<Seq<u8>>::empty().push(r.rdata) =~= seq![r.rdata]);
    if b.len() == 0 {
        assert(a + b =~= a);
        assert(resolve::addresses(a) + resolve::addresses(b) =~= resolve::addresses(a));
    } else {
        law_addresses(a, b.drop_last(), r);
        assert((a + b).drop_last() =~= a + b.drop_last());
        assert((a + b).last() == b.last());
        assert(resolve::addresses(a + b) =~= resolve::addresses(a) + resolve::addresses(b));
    }
}

/// What is written to the log first: the log of a query that comes in blocked over UDP
/// and of one found to lead to a blocked name comes before the answer, that of others
/// behind it.
pub proof fn law_log_order(transport: Transport, m: Message, resp: Seq<u8>, rules: Rules)
    ensures
        upstream::started(transport, m, rules) matches Start::Answered(a) ==> (a.log_first
            <==> transport == Transport::Udp),
        upstream::finished(transport, m, resp, rules) matches Ok(a) ==> (a.log_first
            <==> m.questions.len() > 0 && response_cloaks(resp, rules)),
        upstream::started(transport, m, rules) matches Start::Answered(a) ==> (a.log matches Some(
            line,
        ) && line.qtype == upstream::qtype_label(m.questions[0].qtype)),
        upstream::finished(transport, m, resp, rules) matches Ok(a) ==> (a.log matches Some(line)
            ==> line.qtype == upstream::qtype_label(m.questions[0].qtype)),
{
    law_cloaking(transport, m, resp, rules);
    if let Ok(back) = dns::message_at(resp) {
        lemma_first_cloaked_place(back.answers, rules);
    }
}

} // verus!
