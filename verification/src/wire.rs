//! Laws of the wire format: what is read is what was written, and what is read
//! takes up the bytes it should.
use vstd::prelude::*;
use vstd::utf8::*;
use crate::dns;
use crate::dns::{DnsError, DnsHeader, Message, Question, Record};
use crate::text;

verus! {

/// `w` stands in `data` at `pos`.
pub open spec fn placed(data: Seq<u8>, pos: int, w: Seq<u8>) -> bool {
    0 <= pos && pos + w.len() <= data.len() && data.subrange(pos, pos + w.len()) == w
}

proof fn lemma_placed_split(data: Seq<u8>, pos: int, a: Seq<u8>, b: Seq<u8>)
    requires
        placed(data, pos, a + b),
    ensures
        placed(data, pos, a),
        placed(data, pos + a.len(), b),
{
    let w = data.subrange(pos, pos + (a + b).len());
    assert(w.take(a.len() as int) =~= a);
    assert(w.skip(a.len() as int) =~= b);
    assert(data.subrange(pos, pos + a.len()) =~= w.take(a.len() as int));
    assert(data.subrange(pos + a.len(), pos + a.len() + b.len()) =~= w.skip(a.len() as int));
}

proof fn lemma_placed_byte(data: Seq<u8>, pos: int, w: Seq<u8>, i: int)
    requires
        placed(data, pos, w),
        0 <= i < w.len(),
    ensures
        data[pos + i] == w[i],
{
    assert(data.subrange(pos, pos + w.len())[i] == data[pos + i]);
}

// ---------------------------------------------------------------------------
// Names
// ---------------------------------------------------------------------------

/// The labels that are not empty.
pub open spec fn nonempty(labels: Seq<Seq<char>>) -> Seq<Seq<char>>
    decreases labels.len(),
{
    if labels.len() == 0 {
        Seq::empty()
    } else {
        let front = nonempty(labels.drop_last());
        if labels.last().len() == 0 {
            front
        } else {
            front.push(labels.last())
        }
    }
}

/// A name without its empty labels.
pub open spec fn normal_name(name: Seq<char>) -> Seq<char> {
    dns::joined(nonempty(text::pieces(name, '.')))
}

/// The longest label that a length byte can announce: the lengths above it
/// announce a compression pointer.
pub const MAX_LABEL: usize = 191;

/// Every label is short enough for its length byte.
pub open spec fn labels_fit(labels: Seq<Seq<char>>) -> bool {
    forall|i: int|
        0 <= i < labels.len() ==> encode_utf8(#[trigger] labels[i]).len() <= MAX_LABEL
}

/// Every label of the name is short enough for its length byte.
pub open spec fn name_fits(name: Seq<char>) -> bool {
    labels_fit(text::pieces(name, '.'))
}

/// A name with no empty label, or the empty name.
pub open spec fn canonical(name: Seq<char>) -> bool {
    name.len() == 0 || forall|i: int|
        0 <= i < text::pieces(name, '.').len() ==> #[trigger] text::pieces(name, '.')[i].len() > 0
}

proof fn lemma_nonempty(labels: Seq<Seq<char>>)
    ensures
        forall|i: int|
            0 <= i < nonempty(labels).len() ==> {
                &&& #[trigger] nonempty(labels)[i].len() > 0
                &&& labels.contains(nonempty(labels)[i])
            },
        dns::labels_bytes(nonempty(labels)) == dns::labels_bytes(labels),
    decreases labels.len(),
{
    if labels.len() > 0 {
        let front = labels.drop_last();
        lemma_nonempty(front);
        assert forall|x: Seq<char>| front.contains(x) implies labels.contains(x) by {
            let k = front.index_of(x);
            assert(labels[k] == x);
        }
        assert(labels.contains(labels.last())) by {
            assert(labels[labels.len() - 1] == labels.last());
        }
        if labels.last().len() == 0 {
            assert(dns::labels_bytes(labels) =~= dns::labels_bytes(front));
        } else {
            assert(nonempty(labels).drop_last() =~= nonempty(front));
        }
        assert forall|i: int| 0 <= i < nonempty(labels).len() implies {
            &&& #[trigger] nonempty(labels)[i].len() > 0
            &&& labels.contains(nonempty(labels)[i])
        } by {
            if i < nonempty(front).len() {
                assert(nonempty(labels)[i] == nonempty(front)[i]);
            }
        }
    }
}

proof fn lemma_nonempty_fits(labels: Seq<Seq<char>>)
    requires
        labels_fit(labels),
    ensures
        labels_fit(nonempty(labels)),
{
    lemma_nonempty(labels);
    assert forall|i: int| 0 <= i < nonempty(labels).len() implies encode_utf8(
        #[trigger] nonempty(labels)[i],
    ).len() <= MAX_LABEL by {
        let x = nonempty(labels)[i];
        assert(x.len() > 0 && labels.contains(x));
        let k = labels.index_of(x);
        assert(labels[k] == x);
    }
}

proof fn lemma_nonempty_same(labels: Seq<Seq<char>>)
    requires
        forall|i: int| 0 <= i < labels.len() ==> #[trigger] labels[i].len() > 0,
    ensures
        nonempty(labels) == labels,
    decreases labels.len(),
{
    if labels.len() > 0 {
        let front = labels.drop_last();
        assert forall|i: int| 0 <= i < front.len() implies #[trigger] front[i].len() > 0 by {
            assert(front[i] == labels[i]);
        }
        lemma_nonempty_same(front);
        assert(labels[labels.len() - 1].len() > 0);
        assert(nonempty(labels) =~= labels);
    }
}

proof fn lemma_labels_front(labels: Seq<Seq<char>>)
    requires
        labels.len() > 0,
    ensures
        dns::labels_bytes(labels) == dns::label_bytes(labels[0]) + dns::labels_bytes(
            labels.drop_first(),
        ),
    decreases labels.len(),
{
    if labels.len() == 1 {
        assert(labels.drop_last() =~= Seq::empty());
        assert(labels.drop_first() =~= Seq::empty());
        assert(dns::labels_bytes(labels) =~= dns::label_bytes(labels[0]) + dns::labels_bytes(
            labels.drop_first(),
        ));
    } else {
        lemma_labels_front(labels.drop_last());
        assert(labels.drop_last().drop_first() =~= labels.drop_first().drop_last());
        assert(dns::labels_bytes(labels) =~= dns::label_bytes(labels[0]) + dns::labels_bytes(
            labels.drop_first(),
        ));
    }
}

proof fn lemma_encoded_nonempty(s: Seq<char>)
    requires
        s.len() > 0,
    ensures
        encode_utf8(s).len() > 0,
{
    encode_utf8_first_scalar(s);
}

/// Labels written at a place are read back from that place.
proof fn lemma_scan(data: Seq<u8>, pos: int, labels: Seq<Seq<char>>, jumps: int)
    requires
        labels_fit(labels),
        forall|i: int| 0 <= i < labels.len() ==> #[trigger] labels[i].len() > 0,
        placed(data, pos, dns::labels_bytes(labels).push(0)),
    ensures
        dns::scan_name(data, pos, jumps) == Ok::<(Seq<Seq<char>>, int), DnsError>(
            (labels, pos + dns::labels_bytes(labels).len() + 1),
        ),
    decreases labels.len(),
{
    let w = dns::labels_bytes(labels).push(0);
    if labels.len() == 0 {
        lemma_placed_byte(data, pos, w, 0);
        assert(labels =~= Seq::empty());
    } else {
        let first = labels[0];
        let rest = labels.drop_first();
        let bytes = encode_utf8(first);
        lemma_labels_front(labels);
        lemma_encoded_nonempty(first);
        assert(labels[0].len() > 0);
        let head = dns::label_bytes(first);
        let tail = dns::labels_bytes(rest).push(0);
        assert(w =~= head + tail);
        lemma_placed_split(data, pos, head, tail);
        lemma_placed_byte(data, pos, head, 0);
        assert(head =~= seq![(bytes.len() % 256) as u8] + bytes);
        lemma_placed_split(data, pos, seq![(bytes.len() % 256) as u8], bytes);
        assert(data[pos] == bytes.len());
        assert(data.subrange(pos + 1, pos + 1 + data[pos]) == bytes);
        encode_utf8_valid_utf8(first);
        encode_utf8_decode_utf8(first);
        assert forall|i: int| 0 <= i < rest.len() implies #[trigger] rest[i].len() > 0
            && encode_utf8(rest[i]).len() <= MAX_LABEL by {
            assert(rest[i] == labels[i + 1]);
        }
        lemma_scan(data, pos + head.len(), rest, jumps);
        assert(seq![first] + rest =~= labels);
    }
}

/// Joining what splitting gives returns the text.
pub proof fn lemma_join_pieces(s: Seq<char>)
    ensures
        dns::joined(text::pieces(s, '.')) == s,
    decreases s.len(),
{
    let p = text::pieces(s, '.');
    if s.len() == 0 {
        assert(dns::joined(p) =~= s);
    } else {
        let front = text::pieces(s.drop_last(), '.');
        lemma_join_pieces(s.drop_last());
        text::lemma_pieces_nonempty(s.drop_last(), '.');
        assert(s =~= s.drop_last().push(s.last()));
        if s.last() == '.' {
            assert(p.drop_last() =~= front);
            assert(dns::joined(p) =~= s);
        } else {
            assert(p.drop_last() =~= front.drop_last());
            assert(dns::joined(p) =~= s);
        }
    }
}

proof fn lemma_name_placed(data: Seq<u8>, pos: int, name: Seq<char>)
    requires
        name_fits(name),
        placed(data, pos, dns::wire_name(name)),
    ensures
        dns::name_at(data, pos) == Ok::<(Seq<char>, int), DnsError>(
            (normal_name(name), pos + dns::wire_name(name).len()),
        ),
{
    let labels = text::pieces(name, '.');
    lemma_nonempty(labels);
    lemma_nonempty_fits(labels);
    lemma_scan(data, pos, nonempty(labels), 0);
}

/// A name with no empty label is its own normal form.
pub proof fn law_canonical_name(name: Seq<char>)
    requires
        canonical(name),
    ensures
        normal_name(name) == name,
{
    let labels = text::pieces(name, '.');
    if name.len() == 0 {
        assert(labels.drop_last() =~= Seq::empty());
        reveal_with_fuel(nonempty, 2);
        assert(nonempty(labels) =~= Seq::empty());
        assert(normal_name(name) =~= name);
    } else {
        lemma_nonempty_same(labels);
        lemma_join_pieces(name);
    }
}

/// Writing a name and reading it gives the name without its empty labels, and
/// takes up every byte that was written.
pub proof fn law_name_round_trip(name: Seq<char>)
    requires
        name_fits(name),
    ensures
        dns::name_at(dns::wire_name(name), 0) == Ok::<(Seq<char>, int), DnsError>(
            (normal_name(name), dns::wire_name(name).len() as int),
        ),
{
    let w = dns::wire_name(name);
    assert(w.subrange(0, w.len() as int) =~= w);
    lemma_name_placed(w, 0, name);
}

// ---------------------------------------------------------------------------
// Compressed names
// ---------------------------------------------------------------------------

/// The two bytes that point to an offset: the two top bits of the first are set,
/// and the other fourteen hold the offset, most significant first.
pub open spec fn pointer_bytes(offset: int) -> Seq<u8> {
    seq![(0xC0 + offset / 256) as u8, (offset % 256) as u8]
}

proof fn lemma_pointer_target(offset: int)
    requires
        0 <= offset < 16384,
    ensures
        dns::pointer_target(pointer_bytes(offset)[0], pointer_bytes(offset)[1]) == offset,
        pointer_bytes(offset)[0] >= 0xC0,
{
    let h = offset / 256;
    assert(0 <= h < 64);
    assert((0xC0 + h) % 64 == h);
}

/// Labels written at a place with a pointer behind them are read, and then what
/// is read where the pointer leads.
proof fn lemma_scan_pointer(
    data: Seq<u8>,
    pos: int,
    head: Seq<Seq<char>>,
    offset: int,
    jumps: int,
    tail: Seq<Seq<char>>,
)
    requires
        labels_fit(head),
        forall|i: int| 0 <= i < head.len() ==> #[trigger] head[i].len() > 0,
        0 <= offset < 16384,
        offset < data.len(),
        0 <= jumps < dns::MAX_JUMPS,
        placed(data, pos, dns::labels_bytes(head) + pointer_bytes(offset)),
        dns::scan_name(data, offset, jumps + 1) matches Ok((labels, _)) && labels == tail,
    ensures
        dns::scan_name(data, pos, jumps) == Ok::<(Seq<Seq<char>>, int), DnsError>(
            (head + tail, pos + dns::labels_bytes(head).len() + 2),
        ),
    decreases head.len(),
{
    let ptr = pointer_bytes(offset);
    if head.len() == 0 {
        assert(dns::labels_bytes(head) + ptr =~= ptr);
        lemma_placed_byte(data, pos, ptr, 0);
        lemma_placed_byte(data, pos, ptr, 1);
        lemma_pointer_target(offset);
        assert(head + tail =~= tail);
    } else {
        let first = head[0];
        let rest = head.drop_first();
        let bytes = encode_utf8(first);
        lemma_labels_front(head);
        lemma_encoded_nonempty(first);
        assert(head[0].len() > 0);
        let front = dns::label_bytes(first);
        let behind = dns::labels_bytes(rest) + ptr;
        assert(dns::labels_bytes(head) + ptr =~= front + behind);
        lemma_placed_split(data, pos, front, behind);
        lemma_placed_byte(data, pos, front, 0);
        assert(front =~= seq![(bytes.len() % 256) as u8] + bytes);
        lemma_placed_split(data, pos, seq![(bytes.len() % 256) as u8], bytes);
        assert(data[pos] == bytes.len());
        assert(data.subrange(pos + 1, pos + 1 + data[pos]) == bytes);
        encode_utf8_valid_utf8(first);
        encode_utf8_decode_utf8(first);
        assert forall|i: int| 0 <= i < rest.len() implies #[trigger] rest[i].len() > 0
            && encode_utf8(rest[i]).len() <= MAX_LABEL by {
            assert(rest[i] == head[i + 1]);
        }
        lemma_scan_pointer(data, pos + front.len(), rest, offset, jumps, tail);
        assert(seq![first] + (rest + tail) =~= head + tail);
    }
}

/// A pointer is read as the name that stands where it leads, anywhere in the
/// first 16384 bytes, and the name's own bytes end behind the pointer.
pub proof fn law_pointer_read(data: Seq<u8>, pos: int, offset: int, name: Seq<char>)
    requires
        0 <= offset < 16384,
        name_fits(name),
        placed(data, offset, dns::wire_name(name)),
        placed(data, pos, pointer_bytes(offset)),
    ensures
        dns::name_at(data, pos) == Ok::<(Seq<char>, int), DnsError>((normal_name(name), pos + 2)),
{
    let labels = text::pieces(name, '.');
    lemma_nonempty(labels);
    lemma_nonempty_fits(labels);
    lemma_scan(data, offset, nonempty(labels), 1);
    let none = Seq::<Seq<char>>::empty();
    assert(dns::labels_bytes(none) + pointer_bytes(offset) =~= pointer_bytes(offset));
    lemma_scan_pointer(data, pos, none, offset, 0, nonempty(labels));
    assert(none + nonempty(labels) =~= nonempty(labels));
}

proof fn lemma_nonempty_concat(a: Seq<Seq<char>>, b: Seq<Seq<char>>)
    ensures
        nonempty(a + b) == nonempty(a) + nonempty(b),
    decreases b.len(),
{
    if b.len() == 0 {
        assert(a + b =~= a);
        assert(nonempty(a) + nonempty(b) =~= nonempty(a));
    } else {
        assert((a + b).drop_last() =~= a + b.drop_last());
        lemma_nonempty_concat(a, b.drop_last());
        assert(nonempty(a + b) =~= nonempty(a) + nonempty(b));
    }
}

/// Labels with a pointer behind them are read as the name made of the labels,
/// then the name that stands where the pointer leads.
pub proof fn law_compressed_name(
    data: Seq<u8>,
    pos: int,
    head: Seq<char>,
    offset: int,
    tail: Seq<char>,
)
    requires
        0 <= offset < 16384,
        name_fits(head),
        name_fits(tail),
        placed(data, offset, dns::wire_name(tail)),
        placed(data, pos, dns::wire_name(head).drop_last() + pointer_bytes(offset)),
    ensures
        dns::name_at(data, pos) == Ok::<(Seq<char>, int), DnsError>(
            (normal_name(head.push('.') + tail), pos + dns::wire_name(head).len() + 1),
        ),
{
    let a = text::pieces(head, '.');
    let b = text::pieces(tail, '.');
    lemma_nonempty(a);
    lemma_nonempty(b);
    lemma_nonempty_fits(a);
    lemma_nonempty_fits(b);
    lemma_scan(data, offset, nonempty(b), 1);
    assert(dns::wire_name(head).drop_last() =~= dns::labels_bytes(nonempty(a)));
    lemma_scan_pointer(data, pos, nonempty(a), offset, 0, nonempty(b));
    text::lemma_pieces_concat(head, tail, '.');
    lemma_nonempty_concat(a, b);
}

/// From each of `places` but the last a pointer leads to the next.
pub open spec fn pointer_chain(data: Seq<u8>, places: Seq<int>) -> bool {
    &&& places.len() > 0
    &&& forall|i: int| 0 <= i < places.len() ==> 0 <= #[trigger] places[i] < 16384
    &&& forall|i: int|
        0 <= i < places.len() - 1 ==> placed(
            data,
            #[trigger] places[i],
            pointer_bytes(places[i + 1]),
        )
    &&& places.last() < data.len()
}

proof fn lemma_chain_place(data: Seq<u8>, places: Seq<int>, i: int)
    requires
        pointer_chain(data, places),
        0 <= i < places.len(),
    ensures
        0 <= places[i] < data.len(),
{
    if i < places.len() - 1 {
        assert(placed(data, places[i], pointer_bytes(places[i + 1])));
    }
}

proof fn lemma_chain(data: Seq<u8>, places: Seq<int>, i: int, jumps: int)
    requires
        pointer_chain(data, places),
        0 <= i < places.len(),
        0 <= jumps,
        jumps + (places.len() - 1 - i) <= dns::MAX_JUMPS,
    ensures
        dns::scan_name(data, places.last(), jumps + (places.len() - 1 - i)) matches Ok((labels, _))
            ==> (dns::scan_name(data, places[i], jumps) matches Ok((l, _)) && l == labels),
    decreases places.len() - i,
{
    if i < places.len() - 1 {
        lemma_chain(data, places, i + 1, jumps + 1);
        lemma_chain_place(data, places, i + 1);
        let ptr = pointer_bytes(places[i + 1]);
        let none = Seq::<Seq<char>>::empty();
        assert(dns::labels_bytes(none) + ptr =~= ptr);
        if let Ok((labels, _)) = dns::scan_name(
            data,
            places.last(),
            jumps + (places.len() - 1 - i),
        ) {
            lemma_scan_pointer(data, places[i], none, places[i + 1], jumps, labels);
            assert(none + labels =~= labels);
        }
    }
}

/// Up to sixty-four pointers are followed, one after the other, to the name that
/// the last leads to.
pub proof fn law_pointers_followed(data: Seq<u8>, places: Seq<int>, name: Seq<char>)
    requires
        pointer_chain(data, places),
        2 <= places.len() <= 65,
        name_fits(name),
        placed(data, places.last(), dns::wire_name(name)),
    ensures
        dns::name_at(data, places[0]) == Ok::<(Seq<char>, int), DnsError>(
            (normal_name(name), places[0] + 2),
        ),
{
    let labels = text::pieces(name, '.');
    lemma_nonempty(labels);
    lemma_nonempty_fits(labels);
    lemma_scan(data, places.last(), nonempty(labels), places.len() - 1);
    lemma_chain(data, places, 1, 1);
    lemma_chain_place(data, places, 1);
    let ptr = pointer_bytes(places[1]);
    let none = Seq::<Seq<char>>::empty();
    assert(dns::labels_bytes(none) + ptr =~= ptr);
    assert(placed(data, places[0], ptr));
    lemma_scan_pointer(data, places[0], none, places[1], 0, nonempty(labels));
    assert(none + nonempty(labels) =~= nonempty(labels));
}

proof fn lemma_chain_too_long(data: Seq<u8>, places: Seq<int>, i: int)
    requires
        pointer_chain(data, places),
        places.len() == 66,
        0 <= i <= 64,
    ensures
        dns::scan_name(data, places[i], i) == Err::<(Seq<Seq<char>>, int), DnsError>(
            DnsError::TooManyJumps,
        ),
    decreases 64 - i,
{
    let ptr = pointer_bytes(places[i + 1]);
    assert(placed(data, places[i], ptr));
    lemma_placed_byte(data, places[i], ptr, 0);
    lemma_placed_byte(data, places[i], ptr, 1);
    lemma_pointer_target(places[i + 1]);
    lemma_chain_place(data, places, i + 1);
    if i < 64 {
        lemma_chain_too_long(data, places, i + 1);
    }
}

/// A name that needs more than sixty-four pointers is refused, and so is one whose
/// pointers go in a circle.
pub proof fn law_too_many_pointers(data: Seq<u8>, places: Seq<int>)
    requires
        pointer_chain(data, places),
        places.len() == 66,
    ensures
        dns::name_at(data, places[0]) == Err::<(Seq<char>, int), DnsError>(DnsError::TooManyJumps),
{
    lemma_chain_too_long(data, places, 0);
}

/// Where a name cannot be read, its bytes say why: it starts behind the data, its
/// pointer is cut off or leads behind the data, or its label reaches behind the
/// data or is no UTF-8.
pub proof fn law_unreadable_names(data: Seq<u8>, pos: int)
    requires
        0 <= pos,
    ensures
        pos >= data.len() ==> dns::name_at(data, pos) == Err::<(Seq<char>, int), DnsError>(
            DnsError::EndOfData,
        ),
        pos + 1 == data.len() && data[pos] >= 0xC0 ==> dns::name_at(data, pos) == Err::<
            (Seq<char>, int),
            DnsError,
        >(DnsError::TruncatedPointer),
        pos + 1 < data.len() && data[pos] >= 0xC0 && (data[pos] - 0xC0) * 256 + data[pos + 1]
            >= data.len() ==> dns::name_at(data, pos) == Err::<(Seq<char>, int), DnsError>(
            DnsError::PointerOutOfBounds,
        ),
        pos < data.len() && 0 < data[pos] < 0xC0 && pos + 1 + data[pos] > data.len()
            ==> dns::name_at(data, pos) == Err::<(Seq<char>, int), DnsError>(
            DnsError::TruncatedLabel,
        ),
        pos < data.len() && 0 < data[pos] < 0xC0 && pos + 1 + data[pos] <= data.len()
            && !valid_utf8(data.subrange(pos + 1, pos + 1 + data[pos])) ==> dns::name_at(data, pos)
            == Err::<(Seq<char>, int), DnsError>(DnsError::InvalidUtf8),
{
    if pos < data.len() && data[pos] >= 0xC0 {
        let b = data[pos];
        assert(b % 64 == b - 0xC0);
    }
}

/// The bytes of a name: a label is its length in one byte and its UTF-8 form, a
/// zero byte ends the name, and what stands before a dot comes before what stands
/// behind it.
pub proof fn law_name_bytes(label: Seq<char>, rest: Seq<char>)
    requires
        label.len() > 0,
        forall|i: int| 0 <= i < label.len() ==> label[i] != '.',
        encode_utf8(label).len() <= 255,
    ensures
        dns::wire_name(Seq::<char>::empty()) == seq![0u8],
        dns::wire_name(label) == seq![encode_utf8(label).len() as u8] + encode_utf8(label)
            + seq![0u8],
        dns::wire_name(label.push('.') + rest) == seq![encode_utf8(label).len() as u8]
            + encode_utf8(label) + dns::wire_name(rest),
{
    let none = Seq::<char>::empty();
    assert(text::pieces(none, '.') =~= seq![none]);
    reveal_with_fuel(dns::labels_bytes, 3);
    assert(seq![none].drop_last() =~= Seq::empty());
    assert(dns::wire_name(none) =~= seq![0u8]);
    text::lemma_pieces_single(label, '.');
    assert(seq![label].drop_last() =~= Seq::empty());
    assert(dns::labels_bytes(seq![label]) =~= dns::label_bytes(label));
    assert(dns::wire_name(label) =~= seq![encode_utf8(label).len() as u8] + encode_utf8(label)
        + seq![0u8]);
    text::lemma_pieces_concat(label, rest, '.');
    let all = seq![label] + text::pieces(rest, '.');
    lemma_labels_front(all);
    assert(all.drop_first() =~= text::pieces(rest, '.'));
    assert(dns::wire_name(label.push('.') + rest) =~= seq![encode_utf8(label).len() as u8]
        + encode_utf8(label) + dns::wire_name(rest));
}

// ---------------------------------------------------------------------------
// Numbers, header, question, record
// ---------------------------------------------------------------------------

/// A number written as two bytes is read back.
pub proof fn law_be16_round_trip(v: u16)
    ensures
        dns::be16(dns::be16_bytes(v)[0], dns::be16_bytes(v)[1]) == v,
{
}

/// A number written as four bytes is read back.
pub proof fn law_be32_round_trip(v: u32)
    ensures
        dns::be32(
            dns::be32_bytes(v)[0],
            dns::be32_bytes(v)[1],
            dns::be32_bytes(v)[2],
            dns::be32_bytes(v)[3],
        ) == v,
{
}

/// The first of two bytes counts 256 times the second.
pub proof fn law_be16_value(a: u8, b: u8)
    ensures
        dns::be16(a, b) as int == 256 * a + b,
{
}

/// Each of four bytes counts 256 times the next.
pub proof fn law_be32_value(a: u8, b: u8, c: u8, d: u8)
    ensures
        dns::be32(a, b, c, d) as int == 256 * (256 * (256 * a + b) + c) + d,
{
}

proof fn lemma_be16_placed(data: Seq<u8>, pos: int, v: u16)
    requires
        placed(data, pos, dns::be16_bytes(v)),
    ensures
        dns::be16(data[pos], data[pos + 1]) == v,
{
    lemma_placed_byte(data, pos, dns::be16_bytes(v), 0);
    lemma_placed_byte(data, pos, dns::be16_bytes(v), 1);
}

proof fn lemma_be32_placed(data: Seq<u8>, pos: int, v: u32)
    requires
        placed(data, pos, dns::be32_bytes(v)),
    ensures
        dns::be32(data[pos], data[pos + 1], data[pos + 2], data[pos + 3]) == v,
{
    lemma_placed_byte(data, pos, dns::be32_bytes(v), 0);
    lemma_placed_byte(data, pos, dns::be32_bytes(v), 1);
    lemma_placed_byte(data, pos, dns::be32_bytes(v), 2);
    lemma_placed_byte(data, pos, dns::be32_bytes(v), 3);
}

proof fn lemma_header_placed(data: Seq<u8>, pos: int, h: DnsHeader)
    requires
        placed(data, pos, dns::wire_header(h)),
    ensures
        dns::header_at(data, pos) == Ok::<(DnsHeader, int), DnsError>((h, pos + 12)),
{
    let b0 = dns::be16_bytes(h.id);
    let b1 = dns::be16_bytes(h.flags);
    let b2 = dns::be16_bytes(h.qdcount);
    let b3 = dns::be16_bytes(h.ancount);
    let b4 = dns::be16_bytes(h.nscount);
    let b5 = dns::be16_bytes(h.arcount);
    lemma_placed_split(data, pos, b0 + b1 + b2 + b3 + b4, b5);
    lemma_placed_split(data, pos, b0 + b1 + b2 + b3, b4);
    lemma_placed_split(data, pos, b0 + b1 + b2, b3);
    lemma_placed_split(data, pos, b0 + b1, b2);
    lemma_placed_split(data, pos, b0, b1);
    lemma_be16_placed(data, pos, h.id);
    lemma_be16_placed(data, pos + 2, h.flags);
    lemma_be16_placed(data, pos + 4, h.qdcount);
    lemma_be16_placed(data, pos + 6, h.ancount);
    lemma_be16_placed(data, pos + 8, h.nscount);
    lemma_be16_placed(data, pos + 10, h.arcount);
}

/// A question as it is read back: without empty labels.
pub open spec fn normal_question(q: Question) -> Question {
    Question { name: normal_name(q.name), ..q }
}

proof fn lemma_question_placed(data: Seq<u8>, pos: int, q: Question)
    requires
        name_fits(q.name),
        placed(data, pos, dns::wire_question(q)),
    ensures
        dns::question_at(data, pos) == Ok::<(Question, int), DnsError>(
            (normal_question(q), pos + dns::wire_question(q).len()),
        ),
{
    let n = dns::wire_name(q.name);
    let t = dns::be16_bytes(q.qtype);
    let c = dns::be16_bytes(q.qclass);
    lemma_placed_split(data, pos, n + t, c);
    lemma_placed_split(data, pos, n, t);
    lemma_name_placed(data, pos, q.name);
    let p = pos + n.len();
    lemma_be16_placed(data, p, q.qtype);
    lemma_be16_placed(data, p + 2, q.qclass);
}

/// The record fits the wire: its name and the length of its data do.
pub open spec fn record_fits(r: Record) -> bool {
    name_fits(r.name) && r.rdata.len() <= 65535
}

/// The bytes are those of the name `t`, without compression.
pub open spec fn spells(bytes: Seq<u8>, t: Seq<char>) -> bool {
    name_fits(t) && bytes == dns::wire_name(t)
}

/// `back` is what reading the bytes of `r` gives. The alias target is read from
/// the data: there is none unless `r` is a CNAME record, and where the data is
/// a name without compression it is that name.
pub open spec fn record_reads_as(r: Record, back: Record) -> bool {
    &&& back.name == normal_name(r.name)
    &&& back.rtype == r.rtype
    &&& back.rclass == r.rclass
    &&& back.ttl == r.ttl
    &&& back.rdata == r.rdata
    &&& r.rtype != dns::TYPE_CNAME ==> back.cname_target is None
    &&& forall|t: Seq<char>|
        r.rtype == dns::TYPE_CNAME && #[trigger] spells(r.rdata, t) ==> back.cname_target == Some(
            normal_name(t),
        )
}

proof fn lemma_record_placed(data: Seq<u8>, pos: int, r: Record)
    requires
        record_fits(r),
        placed(data, pos, dns::wire_record(r)),
    ensures
        dns::record_at(data, pos) matches Ok((back, end)) && record_reads_as(r, back) && end == pos
            + dns::wire_record(r).len(),
{
    let n = dns::wire_name(r.name);
    let t = dns::be16_bytes(r.rtype);
    let c = dns::be16_bytes(r.rclass);
    let l = dns::be32_bytes(r.ttl);
    let d = dns::be16_bytes((r.rdata.len() % 65536) as u16);
    lemma_placed_split(data, pos, n + t + c + l + d, r.rdata);
    lemma_placed_split(data, pos, n + t + c + l, d);
    lemma_placed_split(data, pos, n + t + c, l);
    lemma_placed_split(data, pos, n + t, c);
    lemma_placed_split(data, pos, n, t);
    lemma_name_placed(data, pos, r.name);
    let p = pos + n.len();
    lemma_be16_placed(data, p, r.rtype);
    lemma_be16_placed(data, p + 2, r.rclass);
    lemma_be32_placed(data, p + 4, r.ttl);
    lemma_be16_placed(data, p + 8, (r.rdata.len() % 65536) as u16);
    let back = dns::record_at(data, pos)->Ok_0.0;
    assert forall|x: Seq<char>|
        r.rtype == dns::TYPE_CNAME && #[trigger] spells(
            r.rdata,
            x,
        ) implies back.cname_target == Some(normal_name(x)) by {
        lemma_name_placed(data, p + 10, x);
    }
}

// ---------------------------------------------------------------------------
// Message
// ---------------------------------------------------------------------------

/// Each record of `back` is what reading the bytes of the one in its place in
/// `rs` gives.
pub open spec fn records_read_as(rs: Seq<Record>, back: Seq<Record>) -> bool {
    &&& back.len() == rs.len()
    &&& forall|i: int| 0 <= i < rs.len() ==> record_reads_as(rs[i], #[trigger] back[i])
}

/// Every record fits the wire.
pub open spec fn records_fit(rs: Seq<Record>) -> bool {
    forall|i: int| 0 <= i < rs.len() ==> record_fits(#[trigger] rs[i])
}

/// Every question fits the wire.
pub open spec fn questions_fit(qs: Seq<Question>) -> bool {
    forall|i: int| 0 <= i < qs.len() ==> name_fits((#[trigger] qs[i]).name)
}

/// Questions as they are read back.
pub open spec fn normal_questions(qs: Seq<Question>) -> Seq<Question> {
    qs.map_values(|q: Question| normal_question(q))
}

proof fn lemma_questions_placed(data: Seq<u8>, pos: int, qs: Seq<Question>)
    requires
        questions_fit(qs),
        placed(data, pos, dns::wire_questions(qs)),
    ensures
        dns::questions_at(data, pos, qs.len() as int) == Ok::<(Seq<Question>, int), DnsError>(
            (normal_questions(qs), pos + dns::wire_questions(qs).len()),
        ),
    decreases qs.len(),
{
    if qs.len() == 0 {
        assert(normal_questions(qs) =~= Seq::empty());
    } else {
        let front = qs.drop_last();
        assert(dns::wire_questions(qs) == dns::wire_questions(front) + dns::wire_question(
            qs.last(),
        ));
        lemma_placed_split(data, pos, dns::wire_questions(front), dns::wire_question(qs.last()));
        assert forall|i: int| 0 <= i < front.len() implies name_fits((#[trigger] front[i]).name) by {
            assert(front[i] == qs[i]);
        }
        lemma_questions_placed(data, pos, front);
        assert(name_fits(qs[qs.len() - 1].name));
        lemma_question_placed(data, pos + dns::wire_questions(front).len(), qs.last());
        assert(normal_questions(qs) =~= normal_questions(front).push(normal_question(qs.last())));
    }
}

proof fn lemma_records_placed(data: Seq<u8>, pos: int, rs: Seq<Record>)
    requires
        records_fit(rs),
        placed(data, pos, dns::wire_records(rs)),
    ensures
        dns::records_at(data, pos, rs.len() as int) matches Ok((back, end)) && records_read_as(
            rs,
            back,
        ) && end == pos + dns::wire_records(rs).len(),
    decreases rs.len(),
{
    if rs.len() > 0 {
        let front = rs.drop_last();
        assert(dns::wire_records(rs) == dns::wire_records(front) + dns::wire_record(rs.last()));
        lemma_placed_split(data, pos, dns::wire_records(front), dns::wire_record(rs.last()));
        assert forall|i: int| 0 <= i < front.len() implies record_fits(#[trigger] front[i]) by {
            assert(front[i] == rs[i]);
        }
        lemma_records_placed(data, pos, front);
        assert(record_fits(rs[rs.len() - 1]));
        lemma_record_placed(data, pos + dns::wire_records(front).len(), rs.last());
        let fb = dns::records_at(data, pos, front.len() as int)->Ok_0.0;
        let back = dns::records_at(data, pos, rs.len() as int)->Ok_0.0;
        assert forall|i: int| 0 <= i < rs.len() implies record_reads_as(
            rs[i],
            #[trigger] back[i],
        ) by {
            if i < front.len() {
                assert(back[i] == fb[i]);
                assert(front[i] == rs[i]);
                assert(record_reads_as(front[i], fb[i]));
            }
        }
    }
}

/// The message fits the wire: its names and data do, and its counts are true.
/// The count of additional records is written from the records themselves, so
/// only their number is bounded.
pub open spec fn message_fits(m: Message) -> bool {
    &&& m.header.qdcount == m.questions.len()
    &&& m.header.ancount == m.answers.len()
    &&& m.header.nscount == m.authorities.len()
    &&& m.additionals.len() <= 65535
    &&& questions_fit(m.questions)
    &&& records_fit(m.answers)
    &&& records_fit(m.authorities)
    &&& records_fit(m.additionals)
}

/// `back` is what reading the bytes of `m` gives.
pub open spec fn message_reads_as(m: Message, back: Message) -> bool {
    &&& back.header == dns::outgoing_header(m)
    &&& back.questions == normal_questions(m.questions)
    &&& records_read_as(m.answers, back.answers)
    &&& records_read_as(m.authorities, back.authorities)
    &&& records_read_as(m.additionals, back.additionals)
    &&& back.edns_do == dns::any_wants_dnssec(m.additionals)
}

proof fn lemma_reads_same_do(rs: Seq<Record>, back: Seq<Record>)
    requires
        records_read_as(rs, back),
    ensures
        dns::any_wants_dnssec(rs) == dns::any_wants_dnssec(back),
{
    if dns::any_wants_dnssec(rs) {
        let i = choose|i: int| 0 <= i < rs.len() && dns::wants_dnssec(#[trigger] rs[i]);
        assert(record_reads_as(rs[i], back[i]));
        assert(dns::wants_dnssec(back[i]));
    }
    if dns::any_wants_dnssec(back) {
        let i = choose|i: int| 0 <= i < back.len() && dns::wants_dnssec(#[trigger] back[i]);
        assert(record_reads_as(rs[i], back[i]));
        assert(dns::wants_dnssec(rs[i]));
    }
}

proof fn lemma_assemble(
    data: Seq<u8>,
    h: DnsHeader,
    q: (Seq<Question>, int),
    a: (Seq<Record>, int),
    u: (Seq<Record>, int),
    x: (Seq<Record>, int),
)
    requires
        dns::header_at(data, 0) == Ok::<(DnsHeader, int), DnsError>((h, 12)),
        dns::questions_at(data, 12, h.qdcount as int) == Ok::<(Seq<Question>, int), DnsError>(q),
        dns::records_at(data, q.1, h.ancount as int) == Ok::<(Seq<Record>, int), DnsError>(a),
        dns::records_at(data, a.1, h.nscount as int) == Ok::<(Seq<Record>, int), DnsError>(u),
        dns::records_at(data, u.1, h.arcount as int) == Ok::<(Seq<Record>, int), DnsError>(x),
    ensures
        dns::message_at(data) == Ok::<Message, DnsError>(
            Message {
                header: h,
                questions: q.0,
                answers: a.0,
                authorities: u.0,
                additionals: x.0,
                edns_do: dns::any_wants_dnssec(x.0),
            },
        ),
{
}

/// The five parts of a message stand in `data` one behind the other.
spec fn parts_placed(data: Seq<u8>, m: Message) -> bool {
    let p1 = 12 + dns::wire_questions(m.questions).len();
    let p2 = p1 + dns::wire_records(m.answers).len();
    let p3 = p2 + dns::wire_records(m.authorities).len();
    &&& placed(data, 0, dns::wire_header(dns::outgoing_header(m)))
    &&& placed(data, 12, dns::wire_questions(m.questions))
    &&& placed(data, p1 as int, dns::wire_records(m.answers))
    &&& placed(data, p2 as int, dns::wire_records(m.authorities))
    &&& placed(data, p3 as int, dns::wire_records(m.additionals))
}

proof fn lemma_wire_parts(m: Message)
    ensures
        parts_placed(dns::wire_message(m), m),
{
    let data = dns::wire_message(m);
    let h = dns::wire_header(dns::outgoing_header(m));
    let q = dns::wire_questions(m.questions);
    let a = dns::wire_records(m.answers);
    let u = dns::wire_records(m.authorities);
    let x = dns::wire_records(m.additionals);
    assert(placed(data, 0, h + q + a + u + x)) by {
        reveal(dns::wire_message);
        assert(data.subrange(0, data.len() as int) =~= data);
    }
    lemma_placed_split(data, 0, h + q + a + u, x);
    lemma_placed_split(data, 0, h + q + a, u);
    lemma_placed_split(data, 0, h + q, a);
    lemma_placed_split(data, 0, h, q);
    assert(h.len() == 12);
}

/// The records are read from `pos` on as `back`, and end at `end`.
#[verifier::opaque]
spec fn section_read(
    data: Seq<u8>,
    pos: int,
    rs: Seq<Record>,
    back: Seq<Record>,
    end: int,
) -> bool {
    &&& dns::records_at(data, pos, rs.len() as int) == Ok::<(Seq<Record>, int), DnsError>(
        (back, end),
    )
    &&& records_read_as(rs, back)
}

proof fn lemma_section(data: Seq<u8>, pos: int, rs: Seq<Record>, end: int) -> (back: Seq<Record>)
    requires
        records_fit(rs),
        placed(data, pos, dns::wire_records(rs)),
        end == pos + dns::wire_records(rs).len(),
    ensures
        section_read(data, pos, rs, back, end),
{
    lemma_records_placed(data, pos, rs);
    reveal(section_read);
    dns::records_at(data, pos, rs.len() as int)->Ok_0.0
}

/// The header and the questions are read, and the questions end at `end`.
#[verifier::opaque]
spec fn front_read(data: Seq<u8>, m: Message, end: int) -> bool {
    &&& dns::header_at(data, 0) == Ok::<(DnsHeader, int), DnsError>((dns::outgoing_header(m), 12))
    &&& dns::questions_at(data, 12, m.questions.len() as int) == Ok::<
        (Seq<Question>, int),
        DnsError,
    >((normal_questions(m.questions), end))
}

proof fn lemma_front(data: Seq<u8>, m: Message, end: int)
    requires
        questions_fit(m.questions),
        placed(data, 0, dns::wire_header(dns::outgoing_header(m))),
        placed(data, 12, dns::wire_questions(m.questions)),
        end == 12 + dns::wire_questions(m.questions).len(),
    ensures
        front_read(data, m, end),
{
    lemma_header_placed(data, 0, dns::outgoing_header(m));
    lemma_questions_placed(data, 12, m.questions);
    reveal(front_read);
}

#[verifier::spinoff_prover]
proof fn lemma_read_whole(
    data: Seq<u8>,
    m: Message,
    p1: int,
    p2: int,
    p3: int,
    p4: int,
    a: Seq<Record>,
    u: Seq<Record>,
    x: Seq<Record>,
)
    requires
        m.header.qdcount == m.questions.len(),
        m.header.ancount == m.answers.len(),
        m.header.nscount == m.authorities.len(),
        m.additionals.len() <= 65535,
        front_read(data, m, p1),
        section_read(data, p1, m.answers, a, p2),
        section_read(data, p2, m.authorities, u, p3),
        section_read(data, p3, m.additionals, x, p4),
    ensures
        dns::message_at(data) matches Ok(back) && message_reads_as(m, back),
{
    reveal(front_read);
    reveal(section_read);
    lemma_assemble(
        data,
        dns::outgoing_header(m),
        (normal_questions(m.questions), p1),
        (a, p2),
        (u, p3),
        (x, p4),
    );
    lemma_reads_same_do(m.additionals, x);
}

proof fn lemma_message_placed(data: Seq<u8>, m: Message)
    requires
        message_fits(m),
        parts_placed(data, m),
    ensures
        dns::message_at(data) matches Ok(back) && message_reads_as(m, back),
{
    let p1 = 12 + dns::wire_questions(m.questions).len() as int;
    let p2 = p1 + dns::wire_records(m.answers).len();
    let p3 = p2 + dns::wire_records(m.authorities).len();
    let p4 = p3 + dns::wire_records(m.additionals).len();
    lemma_front(data, m, p1);
    let a = lemma_section(data, p1, m.answers, p2);
    let u = lemma_section(data, p2, m.authorities, p3);
    let x = lemma_section(data, p3, m.additionals, p4);
    lemma_read_whole(data, m, p1, p2, p3, p4, a, u, x);
}

/// Writing a message that fits the wire and reading it gives the message back:
/// its fields, its questions and its records with empty labels dropped from
/// their names, and the DO flag as the OPT records say.
pub proof fn law_message_round_trip(m: Message)
    requires
        message_fits(m),
    ensures
        dns::message_at(dns::wire_message(m)) matches Ok(back) && message_reads_as(m, back),
{
    lemma_wire_parts(m);
    lemma_message_placed(dns::wire_message(m), m);
}

/// A record that is read back exactly as it is: its name has no empty label,
/// and its alias target is the uncompressed name in its data.
pub open spec fn record_is_plain(r: Record) -> bool {
    &&& record_fits(r)
    &&& canonical(r.name)
    &&& if r.rtype == dns::TYPE_CNAME {
        r.cname_target matches Some(t) && canonical(t) && spells(r.rdata, t)
    } else {
        r.cname_target is None
    }
}

/// Every record is read back exactly as it is.
pub open spec fn records_are_plain(rs: Seq<Record>) -> bool {
    forall|i: int| 0 <= i < rs.len() ==> record_is_plain(#[trigger] rs[i])
}

/// A message whose every part is read back exactly as it is.
pub open spec fn message_is_plain(m: Message) -> bool {
    &&& message_fits(m)
    &&& m.header.arcount == m.additionals.len()
    &&& m.edns_do == dns::any_wants_dnssec(m.additionals)
    &&& forall|i: int| 0 <= i < m.questions.len() ==> canonical((#[trigger] m.questions[i]).name)
    &&& records_are_plain(m.answers)
    &&& records_are_plain(m.authorities)
    &&& records_are_plain(m.additionals)
}

proof fn lemma_plain_records(rs: Seq<Record>, back: Seq<Record>)
    requires
        records_are_plain(rs),
        records_read_as(rs, back),
    ensures
        back == rs,
{
    assert forall|i: int| 0 <= i < rs.len() implies back[i] == rs[i] by {
        let r = rs[i];
        assert(record_is_plain(r));
        assert(record_reads_as(r, back[i]));
        law_canonical_name(r.name);
        if r.rtype == dns::TYPE_CNAME {
            law_canonical_name(r.cname_target->0);
            assert(spells(r.rdata, r.cname_target->0));
        }
        assert(back[i] =~= r);
    }
    assert(back =~= rs);
}

/// Writing a message and reading it gives exactly the message, where its counts
/// are true, its names have no empty label, its alias targets stand in the data
/// without compression, and its DO flag is that of its OPT records.
pub proof fn law_plain_message_round_trip(m: Message)
    requires
        message_is_plain(m),
    ensures
        dns::message_at(dns::wire_message(m)) == Ok::<Message, DnsError>(m),
{
    law_message_round_trip(m);
    let back = dns::message_at(dns::wire_message(m))->Ok_0;
    lemma_plain_records(m.answers, back.answers);
    lemma_plain_records(m.authorities, back.authorities);
    lemma_plain_records(m.additionals, back.additionals);
    assert forall|i: int| 0 <= i < m.questions.len() implies normal_questions(m.questions)[i]
        == m.questions[i] by {
        law_canonical_name(m.questions[i].name);
        assert(normal_question(m.questions[i]) =~= m.questions[i]);
    }
    assert(normal_questions(m.questions) =~= m.questions);
    assert(back =~= m);
}

proof fn lemma_questions_front(qs: Seq<Question>)
    requires
        qs.len() > 0,
    ensures
        dns::wire_questions(qs) == dns::wire_question(qs[0]) + dns::wire_questions(qs.drop_first()),
    decreases qs.len(),
{
    if qs.len() == 1 {
        assert(qs.drop_last() =~= Seq::empty());
        assert(qs.drop_first() =~= Seq::empty());
        assert(dns::wire_questions(qs) =~= dns::wire_question(qs[0]) + dns::wire_questions(
            qs.drop_first(),
        ));
    } else {
        lemma_questions_front(qs.drop_last());
        assert(qs.drop_last().drop_first() =~= qs.drop_first().drop_last());
        assert(dns::wire_questions(qs) =~= dns::wire_question(qs[0]) + dns::wire_questions(
            qs.drop_first(),
        ));
    }
}

/// A message that announces one question and no records is read back as its
/// header and its first question, whatever other questions were written.
pub proof fn law_one_question_message(m: Message)
    requires
        m.questions.len() > 0,
        name_fits(m.questions[0].name),
        m.header.qdcount == 1,
        m.header.ancount == 0,
        m.header.nscount == 0,
        m.additionals.len() == 0,
    ensures
        dns::message_at(dns::wire_message(m)) == Ok::<Message, DnsError>(
            Message {
                header: DnsHeader { arcount: 0, ..m.header },
                questions: seq![normal_question(m.questions[0])],
                answers: Seq::empty(),
                authorities: Seq::empty(),
                additionals: Seq::empty(),
                edns_do: false,
            },
        ),
{
    let data = dns::wire_message(m);
    lemma_wire_parts(m);
    let first = dns::wire_question(m.questions[0]);
    lemma_questions_front(m.questions);
    lemma_placed_split(data, 12, first, dns::wire_questions(m.questions.drop_first()));
    lemma_header_placed(data, 0, dns::outgoing_header(m));
    lemma_question_placed(data, 12, m.questions[0]);
    let end = 12 + first.len() as int;
    reveal_with_fuel(dns::questions_at, 2);
    assert(dns::questions_at(data, 12, 1) == Ok::<(Seq<Question>, int), DnsError>(
        (seq![normal_question(m.questions[0])], end),
    )) by {
        assert(Seq::<Question>::empty().push(normal_question(m.questions[0])) =~= seq![
            normal_question(m.questions[0]),
        ]);
    }
    let none = (Seq::<Record>::empty(), end);
    lemma_assemble(
        data,
        dns::outgoing_header(m),
        (seq![normal_question(m.questions[0])], end),
        none,
        none,
        none,
    );
}

// ---------------------------------------------------------------------------
// The layout
// ---------------------------------------------------------------------------

/// The number that two bytes of `b` from `i` on hold, the first the larger part.
pub open spec fn two_bytes(b: Seq<u8>, i: int) -> int {
    256 * b[i] + b[i + 1]
}

/// A message begins with twelve bytes: identifier, flags, and the numbers of
/// questions, answers, authorities and additional records; the last is counted.
/// The sections follow in that order.
#[verifier::rlimit(50)]
pub proof fn law_message_layout(m: Message)
    requires
        m.additionals.len() <= 65535,
    ensures
        ({
            let b = dns::wire_message(m);
            let q = dns::wire_questions(m.questions);
            let a = dns::wire_records(m.answers);
            let u = dns::wire_records(m.authorities);
            let x = dns::wire_records(m.additionals);
            &&& b.len() == 12 + q.len() + a.len() + u.len() + x.len()
            &&& two_bytes(b, 0) == m.header.id
            &&& two_bytes(b, 2) == m.header.flags
            &&& two_bytes(b, 4) == m.header.qdcount
            &&& two_bytes(b, 6) == m.header.ancount
            &&& two_bytes(b, 8) == m.header.nscount
            &&& two_bytes(b, 10) == m.additionals.len()
            &&& placed(b, 12, q)
            &&& placed(b, 12 + q.len() as int, a)
            &&& placed(b, (12 + q.len() + a.len()) as int, u)
            &&& placed(b, (12 + q.len() + a.len() + u.len()) as int, x)
        }),
{
    lemma_layout_header(m);
    lemma_layout_sections(m);
    lemma_message_len(m);
}

proof fn lemma_layout_header(m: Message)
    requires
        m.additionals.len() <= 65535,
    ensures
        ({
            let b = dns::wire_message(m);
            &&& two_bytes(b, 0) == m.header.id
            &&& two_bytes(b, 2) == m.header.flags
            &&& two_bytes(b, 4) == m.header.qdcount
            &&& two_bytes(b, 6) == m.header.ancount
            &&& two_bytes(b, 8) == m.header.nscount
            &&& two_bytes(b, 10) == m.additionals.len()
        }),
{
    lemma_wire_parts(m);
    lemma_header_bytes(dns::wire_message(m), dns::outgoing_header(m));
}

proof fn lemma_layout_sections(m: Message)
    ensures
        ({
            let b = dns::wire_message(m);
            let q = dns::wire_questions(m.questions);
            let a = dns::wire_records(m.answers);
            let u = dns::wire_records(m.authorities);
            let x = dns::wire_records(m.additionals);
            &&& placed(b, 12, q)
            &&& placed(b, 12 + q.len() as int, a)
            &&& placed(b, (12 + q.len() + a.len()) as int, u)
            &&& placed(b, (12 + q.len() + a.len() + u.len()) as int, x)
        }),
{
    lemma_wire_parts(m);
}

proof fn lemma_message_len(m: Message)
    ensures
        dns::wire_message(m).len() == 12 + dns::wire_questions(m.questions).len()
            + dns::wire_records(m.answers).len() + dns::wire_records(m.authorities).len()
            + dns::wire_records(m.additionals).len(),
{
    reveal(dns::wire_message);
}

proof fn lemma_header_bytes(b: Seq<u8>, h: DnsHeader)
    requires
        placed(b, 0, dns::wire_header(h)),
    ensures
        two_bytes(b, 0) == h.id,
        two_bytes(b, 2) == h.flags,
        two_bytes(b, 4) == h.qdcount,
        two_bytes(b, 6) == h.ancount,
        two_bytes(b, 8) == h.nscount,
        two_bytes(b, 10) == h.arcount,
{
    lemma_header_placed(b, 0, h);
    law_be16_value(b[0], b[1]);
    law_be16_value(b[2], b[3]);
    law_be16_value(b[4], b[5]);
    law_be16_value(b[6], b[7]);
    law_be16_value(b[8], b[9]);
    law_be16_value(b[10], b[11]);
}

/// Questions and records are written one behind the other.
pub proof fn law_sections_in_order(
    qs: Seq<Question>,
    q: Question,
    rs: Seq<Record>,
    r: Record,
)
    ensures
        dns::wire_questions(Seq::<Question>::empty()).len() == 0,
        dns::wire_questions(qs.push(q)) == dns::wire_questions(qs) + dns::wire_question(q),
        dns::wire_records(Seq::<Record>::empty()).len() == 0,
        dns::wire_records(rs.push(r)) == dns::wire_records(rs) + dns::wire_record(r),
{
    assert(qs.push(q).drop_last() =~= qs);
    assert(rs.push(r).drop_last() =~= rs);
}

/// A question is its name, then its type and its class.
pub proof fn law_question_layout(q: Question)
    ensures
        ({
            let b = dns::wire_question(q);
            let n = dns::wire_name(q.name).len() as int;
            &&& b.len() == n + 4
            &&& b.take(n) == dns::wire_name(q.name)
            &&& two_bytes(b, n) == q.qtype
            &&& two_bytes(b, n + 2) == q.qclass
        }),
{
    let n = dns::wire_name(q.name).len() as int;
    assert(dns::wire_question(q).take(n) =~= dns::wire_name(q.name));
}

/// A record is its name, its type, its class, its TTL in four bytes, the length of
/// its data and its data.
pub proof fn law_record_layout(r: Record)
    requires
        r.rdata.len() <= 65535,
    ensures
        ({
            let b = dns::wire_record(r);
            let n = dns::wire_name(r.name).len() as int;
            &&& b.take(n) == dns::wire_name(r.name)
            &&& two_bytes(b, n) == r.rtype
            &&& two_bytes(b, n + 2) == r.rclass
            &&& 65536 * two_bytes(b, n + 4) + two_bytes(b, n + 6) == r.ttl
            &&& two_bytes(b, n + 8) == r.rdata.len()
            &&& b.skip(n + 10) == r.rdata
        }),
{
    let n = dns::wire_name(r.name).len() as int;
    let b = dns::wire_record(r);
    assert(b.take(n) =~= dns::wire_name(r.name));
    assert(b.skip(n + 10) =~= r.rdata);
}

/// A record that was read holds what stands behind its name: type, class, TTL, and
/// as many bytes of data as announced. The target of an alias is the name that can
/// be read where the data begins, with pointers into the whole message followed;
/// other records have none.
pub proof fn law_record_read(data: Seq<u8>, pos: int, r: Record, end: int)
    requires
        0 <= pos,
        dns::record_at(data, pos) == Ok::<(Record, int), DnsError>((r, end)),
    ensures
        dns::name_at(data, pos) matches Ok((name, p)) && {
            &&& r.name == name
            &&& end == p + 10 + two_bytes(data, p + 8) <= data.len()
            &&& r.rtype == two_bytes(data, p)
            &&& r.rclass == two_bytes(data, p + 2)
            &&& r.ttl == 65536 * two_bytes(data, p + 4) + two_bytes(data, p + 6)
            &&& r.rdata == data.subrange(p + 10, end)
            &&& r.rtype == 5 ==> match dns::name_at(data, p + 10) {
                Ok((target, _)) => r.cname_target == Some(target),
                Err(_) => r.cname_target is None,
            }
            &&& r.rtype != 5 ==> r.cname_target is None
        },
{
    lemma_scan_end(data, pos, 0);
}

/// A question that was read holds what stands behind its name: type and class.
pub proof fn law_question_read(data: Seq<u8>, pos: int, q: Question, end: int)
    requires
        0 <= pos,
        dns::question_at(data, pos) == Ok::<(Question, int), DnsError>((q, end)),
    ensures
        dns::name_at(data, pos) matches Ok((name, p)) && {
            &&& q.name == name
            &&& end == p + 4 <= data.len()
            &&& q.qtype == two_bytes(data, p)
            &&& q.qclass == two_bytes(data, p + 2)
        },
{
    lemma_scan_end(data, pos, 0);
}

/// A message that was read holds the header that its first twelve bytes hold, and
/// behind them one question or record begins where the one before it ends:
/// questions, answers, authorities, additional records.
pub proof fn law_message_read(data: Seq<u8>, m: Message)
    requires
        dns::message_at(data) == Ok::<Message, DnsError>(m),
    ensures
        m.header.id == two_bytes(data, 0),
        m.header.flags == two_bytes(data, 2),
        m.header.qdcount == two_bytes(data, 4),
        m.header.ancount == two_bytes(data, 6),
        m.header.nscount == two_bytes(data, 8),
        m.header.arcount == two_bytes(data, 10),
        exists|e0: Seq<int>, e1: Seq<int>, e2: Seq<int>, e3: Seq<int>|
            {
                &&& #[trigger] questions_stand(data, m.questions, e0)
                &&& #[trigger] records_stand(data, m.answers, e1)
                &&& #[trigger] records_stand(data, m.authorities, e2)
                &&& #[trigger] records_stand(data, m.additionals, e3)
                &&& e0[0] == 12
                &&& e1[0] == e0.last()
                &&& e2[0] == e1.last()
                &&& e3[0] == e2.last()
            },
{
    law_parsed_counts(data);
    let h = m.header;
    let e0 = lemma_questions_stand(data, 12, h.qdcount as int);
    let e1 = lemma_records_stand(data, e0.last(), h.ancount as int);
    let e2 = lemma_records_stand(data, e1.last(), h.nscount as int);
    let e3 = lemma_records_stand(data, e2.last(), h.arcount as int);
    assert(questions_stand(data, m.questions, e0));
    assert(records_stand(data, m.answers, e1));
    assert(records_stand(data, m.authorities, e2));
    assert(records_stand(data, m.additionals, e3));
}

/// The questions stand in `data` one behind the other, each from one of `ends` to
/// the next.
pub open spec fn questions_stand(data: Seq<u8>, qs: Seq<Question>, ends: Seq<int>) -> bool {
    &&& ends.len() == qs.len() + 1
    &&& forall|i: int|
        0 <= i < qs.len() ==> dns::question_at(data, ends[i]) == Ok::<(Question, int), DnsError>(
            (#[trigger] qs[i], ends[i + 1]),
        )
}

/// The records stand in `data` one behind the other, each from one of `ends` to
/// the next.
pub open spec fn records_stand(data: Seq<u8>, rs: Seq<Record>, ends: Seq<int>) -> bool {
    &&& ends.len() == rs.len() + 1
    &&& forall|i: int|
        0 <= i < rs.len() ==> dns::record_at(data, ends[i]) == Ok::<(Record, int), DnsError>(
            (#[trigger] rs[i], ends[i + 1]),
        )
}

proof fn lemma_questions_stand(data: Seq<u8>, pos: int, n: int) -> (ends: Seq<int>)
    requires
        0 <= n,
        dns::questions_at(data, pos, n) is Ok,
    ensures
        questions_stand(data, dns::questions_at(data, pos, n)->Ok_0.0, ends),
        ends[0] == pos,
        ends.last() == dns::questions_at(data, pos, n)->Ok_0.1,
    decreases n,
{
    if n == 0 {
        seq![pos]
    } else {
        let front = lemma_questions_stand(data, pos, n - 1);
        let qs = dns::questions_at(data, pos, n)->Ok_0.0;
        let before = dns::questions_at(data, pos, n - 1)->Ok_0.0;
        let ends = front.push(dns::questions_at(data, pos, n)->Ok_0.1);
        assert forall|i: int| 0 <= i < qs.len() implies dns::question_at(data, ends[i]) == Ok::<
            (Question, int),
            DnsError,
        >((#[trigger] qs[i], ends[i + 1])) by {
            if i < before.len() {
                assert(qs[i] == before[i]);
            }
        }
        ends
    }
}

proof fn lemma_records_stand(data: Seq<u8>, pos: int, n: int) -> (ends: Seq<int>)
    requires
        0 <= n,
        dns::records_at(data, pos, n) is Ok,
    ensures
        records_stand(data, dns::records_at(data, pos, n)->Ok_0.0, ends),
        ends[0] == pos,
        ends.last() == dns::records_at(data, pos, n)->Ok_0.1,
    decreases n,
{
    if n == 0 {
        seq![pos]
    } else {
        let front = lemma_records_stand(data, pos, n - 1);
        let rs = dns::records_at(data, pos, n)->Ok_0.0;
        let before = dns::records_at(data, pos, n - 1)->Ok_0.0;
        let ends = front.push(dns::records_at(data, pos, n)->Ok_0.1);
        assert forall|i: int| 0 <= i < rs.len() implies dns::record_at(data, ends[i]) == Ok::<
            (Record, int),
            DnsError,
        >((#[trigger] rs[i], ends[i + 1])) by {
            if i < before.len() {
                assert(rs[i] == before[i]);
            }
        }
        ends
    }
}

// ---------------------------------------------------------------------------
// Writing what was read back
// ---------------------------------------------------------------------------

/// A label that holds no dot.
spec fn dotless(label: Seq<char>) -> bool {
    forall|i: int| 0 <= i < label.len() ==> label[i] != '.'
}

proof fn lemma_pieces_dotless(s: Seq<char>)
    ensures
        forall|i: int| 0 <= i < text::pieces(s, '.').len() ==> dotless(
            #[trigger] text::pieces(s, '.')[i],
        ),
    decreases s.len(),
{
    if s.len() > 0 {
        let front = text::pieces(s.drop_last(), '.');
        lemma_pieces_dotless(s.drop_last());
        text::lemma_pieces_nonempty(s.drop_last(), '.');
        let p = text::pieces(s, '.');
        assert forall|i: int| 0 <= i < p.len() implies dotless(#[trigger] p[i]) by {
            if i < front.len() {
                assert(dotless(front[i]));
            }
        }
    }
}

/// Splitting joined labels gives the labels.
proof fn lemma_split_joined(labels: Seq<Seq<char>>)
    requires
        labels.len() > 0,
        forall|i: int| 0 <= i < labels.len() ==> dotless(#[trigger] labels[i]),
    ensures
        text::pieces(dns::joined(labels), '.') == labels,
    decreases labels.len(),
{
    assert(dotless(labels[labels.len() - 1]));
    text::lemma_pieces_single(labels.last(), '.');
    if labels.len() == 1 {
        assert(labels =~= seq![labels[0]]);
    } else {
        let front = labels.drop_last();
        assert forall|i: int| 0 <= i < front.len() implies dotless(#[trigger] front[i]) by {
            assert(front[i] == labels[i]);
        }
        lemma_split_joined(front);
        text::lemma_pieces_concat(dns::joined(front), labels.last(), '.');
        assert(labels =~= front + seq![labels.last()]);
    }
}

/// A name without its empty labels is written as the name is.
pub proof fn law_normal_name_bytes(name: Seq<char>)
    ensures
        dns::wire_name(normal_name(name)) == dns::wire_name(name),
{
    let labels = text::pieces(name, '.');
    let kept = nonempty(labels);
    lemma_nonempty(labels);
    if kept.len() == 0 {
        assert(normal_name(name) =~= Seq::empty());
        let p = text::pieces(Seq::<char>::empty(), '.');
        assert(p.drop_last() =~= Seq::empty());
        reveal_with_fuel(dns::labels_bytes, 2);
        assert(dns::labels_bytes(p) =~= Seq::empty());
        assert(kept =~= Seq::empty());
    } else {
        lemma_pieces_dotless(name);
        assert forall|i: int| 0 <= i < kept.len() implies dotless(#[trigger] kept[i]) by {
            assert(kept[i].len() > 0 && labels.contains(kept[i]));
            let k = labels.index_of(kept[i]);
            assert(dotless(labels[k]));
        }
        lemma_split_joined(kept);
    }
}

/// Questions without the empty labels of their names are written as the
/// questions are.
pub proof fn law_normal_questions_bytes(qs: Seq<Question>)
    ensures
        dns::wire_questions(normal_questions(qs)) == dns::wire_questions(qs),
    decreases qs.len(),
{
    let back = normal_questions(qs);
    if qs.len() == 0 {
        assert(back =~= qs);
    } else {
        law_normal_questions_bytes(qs.drop_last());
        law_normal_name_bytes(qs.last().name);
        assert(back.drop_last() =~= normal_questions(qs.drop_last()));
        assert(back.last() == normal_question(qs.last()));
    }
}

/// Records that were read back are written as they were.
pub proof fn law_read_records_bytes(rs: Seq<Record>, back: Seq<Record>)
    requires
        records_read_as(rs, back),
    ensures
        dns::wire_records(back) == dns::wire_records(rs),
    decreases rs.len(),
{
    if rs.len() > 0 {
        let a = rs.drop_last();
        let b = back.drop_last();
        assert forall|i: int| 0 <= i < a.len() implies record_reads_as(a[i], #[trigger] b[i]) by {
            assert(b[i] == back[i]);
        }
        law_read_records_bytes(a, b);
        assert(record_reads_as(rs[rs.len() - 1], back[rs.len() - 1]));
        law_normal_name_bytes(rs.last().name);
    }
}

// ---------------------------------------------------------------------------
// Sizes
// ---------------------------------------------------------------------------

proof fn lemma_scan_end(data: Seq<u8>, pos: int, jumps: int)
    ensures
        dns::scan_name(data, pos, jumps) matches Ok((_, end)) ==> pos + 1 <= end <= data.len(),
    decreases dns::MAX_JUMPS - jumps, data.len() - pos,
{
    if 0 <= pos < data.len() && data[pos] != 0 && data[pos] < 0xC0 {
        let end = pos + 1 + data[pos];
        if end <= data.len() {
            lemma_scan_end(data, end, jumps);
        }
    }
}

proof fn lemma_questions_end(data: Seq<u8>, pos: int, n: int)
    requires
        0 <= pos <= data.len(),
        0 <= n,
    ensures
        dns::questions_at(data, pos, n) matches Ok((_, end)) ==> pos + 5 * n <= end <= data.len(),
    decreases n,
{
    if n > 0 {
        lemma_questions_end(data, pos, n - 1);
        if let Ok((_, p)) = dns::questions_at(data, pos, n - 1) {
            lemma_scan_end(data, p, 0);
        }
    }
}

proof fn lemma_records_end(data: Seq<u8>, pos: int, n: int)
    requires
        0 <= pos <= data.len(),
        0 <= n,
    ensures
        dns::records_at(data, pos, n) matches Ok((_, end)) ==> pos + 11 * n <= end <= data.len(),
    decreases n,
{
    if n > 0 {
        lemma_records_end(data, pos, n - 1);
        if let Ok((_, p)) = dns::records_at(data, pos, n - 1) {
            lemma_scan_end(data, p, 0);
        }
    }
}

proof fn lemma_questions_len(data: Seq<u8>, pos: int, n: int)
    requires
        0 <= n,
    ensures
        dns::questions_at(data, pos, n) matches Ok((qs, _)) ==> qs.len() == n,
    decreases n,
{
    if n > 0 {
        lemma_questions_len(data, pos, n - 1);
    }
}

proof fn lemma_records_len(data: Seq<u8>, pos: int, n: int)
    requires
        0 <= n,
    ensures
        dns::records_at(data, pos, n) matches Ok((rs, _)) ==> rs.len() == n,
    decreases n,
{
    if n > 0 {
        lemma_records_len(data, pos, n - 1);
    }
}

/// The counts in the header of a message that was read are true, and the
/// message takes up at least twelve bytes, five for each question and eleven
/// for each record.
pub proof fn law_parsed_counts(data: Seq<u8>)
    ensures
        dns::message_at(data) matches Ok(m) ==> {
            &&& m.questions.len() == m.header.qdcount
            &&& m.answers.len() == m.header.ancount
            &&& m.authorities.len() == m.header.nscount
            &&& m.additionals.len() == m.header.arcount
            &&& 12 + 5 * m.questions.len() + 11 * (m.answers.len() + m.authorities.len()
                + m.additionals.len()) <= data.len()
        },
{
    if let Ok(m) = dns::message_at(data) {
        let h = m.header;
        lemma_questions_len(data, 12, h.qdcount as int);
        lemma_questions_end(data, 12, h.qdcount as int);
        let p1 = dns::questions_at(data, 12, h.qdcount as int)->Ok_0.1;
        lemma_records_len(data, p1, h.ancount as int);
        lemma_records_end(data, p1, h.ancount as int);
        let p2 = dns::records_at(data, p1, h.ancount as int)->Ok_0.1;
        lemma_records_len(data, p2, h.nscount as int);
        lemma_records_end(data, p2, h.nscount as int);
        let p3 = dns::records_at(data, p2, h.nscount as int)->Ok_0.1;
        lemma_records_len(data, p3, h.arcount as int);
        lemma_records_end(data, p3, h.arcount as int);
    }
}

// ---------------------------------------------------------------------------
// What was read can be written
// ---------------------------------------------------------------------------

proof fn lemma_encode_concat(a: Seq<char>, b: Seq<char>)
    ensures
        encode_utf8(a + b) == encode_utf8(a) + encode_utf8(b),
    decreases a.len(),
{
    if a.len() == 0 {
        assert(a + b =~= b);
        assert(encode_utf8(a) + encode_utf8(b) =~= encode_utf8(b));
    } else {
        lemma_encode_concat(a.drop_first(), b);
        assert((a + b).drop_first() =~= a.drop_first() + b);
        assert(encode_utf8(a + b) =~= encode_utf8(a) + encode_utf8(b));
    }
}

proof fn lemma_piece_sizes(s: Seq<char>)
    ensures
        forall|i: int|
            0 <= i < text::pieces(s, '.').len() ==> encode_utf8(
                #[trigger] text::pieces(s, '.')[i],
            ).len() <= encode_utf8(s).len(),
    decreases s.len(),
{
    let p = text::pieces(s, '.');
    if s.len() > 0 {
        let front = text::pieces(s.drop_last(), '.');
        lemma_piece_sizes(s.drop_last());
        text::lemma_pieces_nonempty(s.drop_last(), '.');
        let tail = seq![s.last()];
        assert(s =~= s.drop_last() + tail);
        lemma_encode_concat(s.drop_last(), tail);
        assert(front.last().push(s.last()) =~= front.last() + tail);
        lemma_encode_concat(front.last(), tail);
        assert forall|i: int| 0 <= i < p.len() implies encode_utf8(#[trigger] p[i]).len()
            <= encode_utf8(s).len() by {
            if i < front.len() {
                assert(encode_utf8(front[i]).len() <= encode_utf8(s.drop_last()).len());
            }
        }
    }
}

proof fn lemma_joined_fits(labels: Seq<Seq<char>>)
    requires
        labels_fit(labels),
    ensures
        name_fits(dns::joined(labels)),
    decreases labels.len(),
{
    let name = dns::joined(labels);
    if labels.len() == 0 {
        lemma_piece_sizes(name);
        assert(encode_utf8(name).len() == 0);
    } else if labels.len() == 1 {
        lemma_piece_sizes(name);
        assert(encode_utf8(labels[0]).len() <= MAX_LABEL);
    } else {
        let front = labels.drop_last();
        assert forall|i: int| 0 <= i < front.len() implies encode_utf8(#[trigger] front[i]).len()
            <= MAX_LABEL by {
            assert(front[i] == labels[i]);
        }
        lemma_joined_fits(front);
        lemma_piece_sizes(labels.last());
        assert(encode_utf8(labels[labels.len() - 1]).len() <= MAX_LABEL);
        text::lemma_pieces_concat(dns::joined(front), labels.last(), '.');
        let a = text::pieces(dns::joined(front), '.');
        let b = text::pieces(labels.last(), '.');
        assert forall|i: int| 0 <= i < (a + b).len() implies encode_utf8(
            #[trigger] (a + b)[i],
        ).len() <= MAX_LABEL by {
            if i < a.len() {
                assert((a + b)[i] == a[i]);
            } else {
                assert((a + b)[i] == b[i - a.len()]);
            }
        }
    }
}

proof fn lemma_scan_fits(data: Seq<u8>, pos: int, jumps: int)
    ensures
        dns::scan_name(data, pos, jumps) matches Ok((labels, _)) ==> labels_fit(labels),
    decreases dns::MAX_JUMPS - jumps, data.len() - pos,
{
    if let Ok((labels, _)) = dns::scan_name(data, pos, jumps) {
        if data[pos] == 0 {
        } else if data[pos] >= 0xC0 {
            lemma_scan_fits(data, dns::pointer_target(data[pos], data[pos + 1]), jumps + 1);
        } else {
            let end = pos + 1 + data[pos];
            lemma_scan_fits(data, end, jumps);
            let bytes = data.subrange(pos + 1, end);
            decode_utf8_encode_utf8(bytes);
            let rest = dns::scan_name(data, end, jumps)->Ok_0.0;
            assert forall|i: int| 0 <= i < labels.len() implies encode_utf8(
                #[trigger] labels[i],
            ).len() <= MAX_LABEL by {
                if i > 0 {
                    assert(labels[i] == rest[i - 1]);
                }
            }
        }
    }
}

proof fn lemma_name_fits_read(data: Seq<u8>, pos: int)
    ensures
        dns::name_at(data, pos) matches Ok((name, _)) ==> name_fits(name),
{
    lemma_scan_fits(data, pos, 0);
    if let Ok((labels, _)) = dns::scan_name(data, pos, 0) {
        lemma_joined_fits(labels);
    }
}

proof fn lemma_questions_fit_read(data: Seq<u8>, pos: int, n: int)
    ensures
        dns::questions_at(data, pos, n) matches Ok((qs, _)) ==> questions_fit(qs),
    decreases n,
{
    if n > 0 {
        lemma_questions_fit_read(data, pos, n - 1);
        if let Ok((_, p)) = dns::questions_at(data, pos, n - 1) {
            lemma_name_fits_read(data, p);
        }
    }
}

proof fn lemma_records_fit_read(data: Seq<u8>, pos: int, n: int)
    ensures
        dns::records_at(data, pos, n) matches Ok((rs, _)) ==> records_fit(rs),
    decreases n,
{
    if n > 0 {
        lemma_records_fit_read(data, pos, n - 1);
        if let Ok((_, p)) = dns::records_at(data, pos, n - 1) {
            lemma_name_fits_read(data, p);
            lemma_scan_end(data, p, 0);
        }
    }
}

/// A message that was read fits the wire: it can be written and read again.
pub proof fn law_parsed_fits(data: Seq<u8>)
    ensures
        dns::message_at(data) matches Ok(m) ==> message_fits(m),
{
    law_parsed_counts(data);
    if let Ok(m) = dns::message_at(data) {
        let h = m.header;
        lemma_questions_fit_read(data, 12, h.qdcount as int);
        let p1 = dns::questions_at(data, 12, h.qdcount as int)->Ok_0.1;
        lemma_records_fit_read(data, p1, h.ancount as int);
        let p2 = dns::records_at(data, p1, h.ancount as int)->Ok_0.1;
        lemma_records_fit_read(data, p2, h.nscount as int);
        let p3 = dns::records_at(data, p2, h.nscount as int)->Ok_0.1;
        lemma_records_fit_read(data, p3, h.arcount as int);
    }
}

/// A message that was read says it wants DNSSEC records exactly where one of
/// its OPT records has the DO bit set: a record of type 41 with bit 15 of its TTL.
pub proof fn law_parsed_do(data: Seq<u8>)
    ensures
        dns::message_at(data) matches Ok(m) ==> {
            &&& m.edns_do == dns::any_wants_dnssec(m.additionals)
            &&& m.edns_do <==> exists|i: int|
                0 <= i < m.additionals.len() && (#[trigger] m.additionals[i]).rtype == 41
                    && m.additionals[i].ttl & 0x8000 != 0
        },
{
    if let Ok(m) = dns::message_at(data) {
        if m.edns_do {
            let i = choose|i: int|
                0 <= i < m.additionals.len() && dns::wants_dnssec(#[trigger] m.additionals[i]);
            assert(m.additionals[i].rtype == 41);
        }
        if exists|i: int|
            0 <= i < m.additionals.len() && (#[trigger] m.additionals[i]).rtype == 41
                && m.additionals[i].ttl & 0x8000 != 0 {
            let i = choose|i: int|
                0 <= i < m.additionals.len() && (#[trigger] m.additionals[i]).rtype == 41
                    && m.additionals[i].ttl & 0x8000 != 0;
            assert(dns::wants_dnssec(m.additionals[i]));
        }
    }
}

/// Data that ends too early cannot be read: a header takes twelve bytes, a question four
/// behind its name, a record ten behind its name and its data behind that.
pub proof fn law_short_data(data: Seq<u8>, pos: int, name: Seq<char>, end: int)
    requires
        dns::name_at(data, pos) == Ok::<(Seq<char>, int), DnsError>((name, end)),
        0 <= end <= data.len(),
    ensures
        data.len() < 12 ==> dns::message_at(data) == Err::<Message, DnsError>(DnsError::FillBuffer),
        data.len() < end + 4 ==> dns::question_at(data, pos) == Err::<(Question, int), DnsError>(
            DnsError::FillBuffer,
        ),
        data.len() < end + 10 ==> dns::record_at(data, pos) == Err::<(Record, int), DnsError>(
            DnsError::FillBuffer,
        ),
        end + 10 <= data.len() < end + 10 + two_bytes(data, end + 8) ==> dns::record_at(data, pos)
            == Err::<(Record, int), DnsError>(DnsError::FillBuffer),
        data.len() >= end + 4 ==> dns::question_at(data, pos) is Ok,
        data.len() >= end + 10 + two_bytes(data, end + 8) && data.len() >= end + 10
            ==> dns::record_at(data, pos) is Ok,
{
    if end + 10 <= data.len() {
        law_be16_value(data[end + 8], data[end + 9]);
    }
}

/// A question or a record whose name cannot be read cannot be read for the same reason.
pub proof fn law_bad_name(data: Seq<u8>, pos: int, e: DnsError)
    requires
        dns::name_at(data, pos) == Err::<(Seq<char>, int), DnsError>(e),
    ensures
        dns::question_at(data, pos) == Err::<(Question, int), DnsError>(e),
        dns::record_at(data, pos) == Err::<(Record, int), DnsError>(e),
{
}

} // verus!
