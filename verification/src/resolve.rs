//! Asking upstream for the addresses of a host.
use vstd::prelude::*;
use crate::dns;
use crate::dns::{DnsError, DnsHeader, DnsMessage, DnsQuestion, DnsResourceRecord, Message, Question, Record};

verus! {

/// Record type of an address.
pub const TYPE_A: u16 = 1;

/// The class of the internet.
pub const CLASS_IN: u16 = 1;

/// The flag of a query that asks for recursion.
pub const RD_FLAG: u16 = 0x0100;

/// The query for the addresses of a host.
pub open spec fn address_query(id: u16, host: Seq<char>) -> Message {
    Message {
        header: DnsHeader { id, flags: RD_FLAG, qdcount: 1, ancount: 0, nscount: 0, arcount: 0 },
        questions: seq![Question { name: host, qtype: TYPE_A, qclass: CLASS_IN }],
        answers: Seq::empty(),
        authorities: Seq::empty(),
        additionals: Seq::empty(),
        edns_do: false,
    }
}

/// The bytes of the query for the addresses of a host.
pub fn a_query(id: u16, host: &str) -> (r: Result<Vec<u8>, DnsError>)
    ensures
        r matches Ok(b) && b@ == dns::wire_message(address_query(id, host@)),
{
    let mut questions: Vec<DnsQuestion> = Vec::new();
    questions.push(DnsQuestion { name: host.to_owned(), qtype: TYPE_A, qclass: CLASS_IN });
    let msg = DnsMessage {
        header: DnsHeader::new(id, RD_FLAG, 1, 0, 0, 0),
        questions,
        answers: Vec::new(),
        authorities: Vec::new(),
        additionals: Vec::new(),
        edns_do: false,
    };
    assert(msg@ =~= address_query(id, host@));
    msg.serialize()
}

/// Whether a record holds an address.
pub open spec fn holds_address(r: Record) -> bool {
    r.rtype == TYPE_A && r.rdata.len() == 4
}

/// The addresses that records hold, in order.
pub open spec fn addresses(rs: Seq<Record>) -> Seq<Seq<u8>>
    decreases rs.len(),
{
    if rs.len() == 0 {
        Seq::empty()
    } else if holds_address(rs.last()) {
        addresses(rs.drop_last()).push(rs.last().rdata)
    } else {
        addresses(rs.drop_last())
    }
}

/// Views of addresses.
pub open spec fn address_views(v: Seq<[u8; 4]>) -> Seq<Seq<u8>> {
    v.map_values(|a: [u8; 4]| a@)
}

/// The addresses that records hold.
fn take_addresses(rs: &[DnsResourceRecord]) -> (r: Vec<[u8; 4]>)
    ensures
        address_views(r@) == addresses(dns::record_views(rs@)),
{
    let ghost all = dns::record_views(rs@);
    let mut out: Vec<[u8; 4]> = Vec::new();
    assert(address_views(out@) =~= Seq::empty());
    for i in 0..rs.len()
        invariant
            all == dns::record_views(rs@),
            address_views(out@) == addresses(all.take(i as int)),
    {
        assert(all.take(i + 1).drop_last() =~= all.take(i as int));
        assert(all[i as int] == rs@[i as int]@);
        let rr = &rs[i];
        if rr.rtype == TYPE_A && rr.rdata.len() == 4 {
            let a: [u8; 4] = [rr.rdata[0], rr.rdata[1], rr.rdata[2], rr.rdata[3]];
            let ghost before = out@;
            out.push(a);
            assert(a@ =~= rr.rdata@);
            assert(address_views(out@) =~= address_views(before).push(a@));
        }
    }
    assert(all.take(all.len() as int) =~= all);
    out
}

/// The addresses in the answers of a response. Fails where the response cannot
/// be read.
pub fn a_records(resp: &[u8]) -> (r: Result<Vec<[u8; 4]>, DnsError>)
    ensures
        match dns::message_at(resp@) {
            Ok(m) => r matches Ok(v) && address_views(v@) == addresses(m.answers),
            Err(e) => r == Err::<Vec<[u8; 4]>, DnsError>(e),
        },
{
    let msg = DnsMessage::parse(resp)?;
    Ok(take_addresses(&msg.answers))
}

} // verus!
