//! The DNS wire format: header, question, resource record, message.
//!
//! A name is a run of labels, each behind its length, ended by a zero byte or
//! by a pointer to another place in the message where the rest of it stands.
use vstd::prelude::*;
use vstd::string::StringSliceAdditionalSpecFns;
use vstd::utf8::*;
use vstd::slice::slice_subrange;
use crate::text;

verus! {

/// Record type of a canonical-name alias.
pub const TYPE_CNAME: u16 = 5;

/// Record type of the EDNS0 pseudo-record.
pub const TYPE_OPT: u16 = 41;

/// The DO bit, kept in the TTL field of an OPT record: the top bit of its low
/// half. The high half holds the extended response code and the version.
pub const DO_BIT: u32 = 0x0000_8000;

/// How many compression pointers one name may follow.
pub const MAX_JUMPS: usize = 64;

/// What kind of failure a `DnsError` is.
#[derive(Debug, Clone, Copy, PartialEq, Eq, Structural)]
pub enum ErrorKind {
    UnexpectedEof,
    InvalidData,
}

/// Why a message could not be read.
#[derive(Debug, Clone, Copy, PartialEq, Eq, Structural)]
pub enum DnsError {
    /// A name starts past the end of the data.
    EndOfData,
    /// A compression pointer is cut off after its first byte.
    TruncatedPointer,
    /// A compression pointer leads outside the data.
    PointerOutOfBounds,
    /// A name follows too many compression pointers.
    TooManyJumps,
    /// A label reaches past the end of the data.
    TruncatedLabel,
    /// A label is not UTF-8.
    InvalidUtf8,
    /// A field of fixed size reaches past the end of the data.
    FillBuffer,
}

impl DnsError {
    /// The kind of failure.
    pub open spec fn spec_kind(self) -> ErrorKind {
        match self {
            DnsError::EndOfData => ErrorKind::UnexpectedEof,
            DnsError::TruncatedPointer => ErrorKind::UnexpectedEof,
            DnsError::PointerOutOfBounds => ErrorKind::InvalidData,
            DnsError::TooManyJumps => ErrorKind::InvalidData,
            DnsError::TruncatedLabel => ErrorKind::UnexpectedEof,
            DnsError::InvalidUtf8 => ErrorKind::InvalidData,
            DnsError::FillBuffer => ErrorKind::UnexpectedEof,
        }
    }

    /// The kind of failure.
    pub fn kind(&self) -> (r: ErrorKind)
        ensures
            r == self.spec_kind(),
    {
        match self {
            DnsError::EndOfData => ErrorKind::UnexpectedEof,
            DnsError::TruncatedPointer => ErrorKind::UnexpectedEof,
            DnsError::PointerOutOfBounds => ErrorKind::InvalidData,
            DnsError::TooManyJumps => ErrorKind::InvalidData,
            DnsError::TruncatedLabel => ErrorKind::UnexpectedEof,
            DnsError::InvalidUtf8 => ErrorKind::InvalidData,
            DnsError::FillBuffer => ErrorKind::UnexpectedEof,
        }
    }

    /// The message for people.
    pub open spec fn message(self) -> Seq<char> {
        match self {
            DnsError::EndOfData => "End of data"@,
            DnsError::TruncatedPointer => "Truncated compression pointer"@,
            DnsError::PointerOutOfBounds => "Pointer out of bounds"@,
            DnsError::TooManyJumps => "Too many DNS name compression jumps"@,
            DnsError::TruncatedLabel => "Truncated label"@,
            DnsError::InvalidUtf8 => "Invalid UTF-8 in label"@,
            DnsError::FillBuffer => "failed to fill whole buffer"@,
        }
    }

    /// The message for people.
    pub fn to_string(&self) -> (r: String)
        ensures
            r@ == self.message(),
    {
        let s: &str = match self {
            DnsError::EndOfData => "End of data",
            DnsError::TruncatedPointer => "Truncated compression pointer",
            DnsError::PointerOutOfBounds => "Pointer out of bounds",
            DnsError::TooManyJumps => "Too many DNS name compression jumps",
            DnsError::TruncatedLabel => "Truncated label",
            DnsError::InvalidUtf8 => "Invalid UTF-8 in label",
            DnsError::FillBuffer => "failed to fill whole buffer",
        };
        s.to_owned()
    }
}

/// The error of `std::str::from_utf8`.
#[verifier::external_type_specification]
#[verifier::external_body]
pub struct ExUtf8Error(core::str::Utf8Error);

/// `std::str::from_utf8` accepts exactly the valid UTF-8 byte sequences and
/// gives the text they encode.
pub assume_specification[ core::str::from_utf8 ](v: &[u8]) -> (r: Result<
    &str,
    core::str::Utf8Error,
>)
    ensures
        r is Ok <==> valid_utf8(v@),
        r matches Ok(s) ==> s.spec_bytes() == v@,
;

// ---------------------------------------------------------------------------
// Numbers
// ---------------------------------------------------------------------------

/// The number that two bytes hold, most significant first.
pub open spec fn be16(a: u8, b: u8) -> u16 {
    (a * 256 + b) as u16
}

/// The number that four bytes hold, most significant first.
pub open spec fn be32(a: u8, b: u8, c: u8, d: u8) -> u32 {
    (a * 16777216 + b * 65536 + c * 256 + d) as u32
}

/// The two bytes of a number, most significant first.
pub open spec fn be16_bytes(v: u16) -> Seq<u8> {
    seq![(v / 256) as u8, (v % 256) as u8]
}

/// The four bytes of a number, most significant first.
pub open spec fn be32_bytes(v: u32) -> Seq<u8> {
    seq![
        (v / 16777216) as u8,
        (v / 65536 % 256) as u8,
        (v / 256 % 256) as u8,
        (v % 256) as u8,
    ]
}

/// Reads a number from two bytes, most significant first.
pub fn read_be16(a: u8, b: u8) -> (r: u16)
    ensures
        r == be16(a, b),
{
    a as u16 * 256 + b as u16
}

/// Reads a number from four bytes, most significant first.
pub fn read_be32(a: u8, b: u8, c: u8, d: u8) -> (r: u32)
    ensures
        r == be32(a, b, c, d),
{
    a as u32 * 16777216 + b as u32 * 65536 + c as u32 * 256 + d as u32
}

/// Appends the two bytes of a number, most significant first.
pub fn push_be16(buf: &mut Vec<u8>, v: u16)
    ensures
        final(buf)@ == old(buf)@ + be16_bytes(v),
{
    let ghost start = buf@;
    buf.push((v / 256) as u8);
    buf.push((v % 256) as u8);
    assert(buf@ =~= start + be16_bytes(v));
}

/// Appends the four bytes of a number, most significant first.
pub fn push_be32(buf: &mut Vec<u8>, v: u32)
    ensures
        final(buf)@ == old(buf)@ + be32_bytes(v),
{
    let ghost start = buf@;
    buf.push((v / 16777216) as u8);
    buf.push((v / 65536 % 256) as u8);
    buf.push((v / 256 % 256) as u8);
    buf.push((v % 256) as u8);
    assert(buf@ =~= start + be32_bytes(v));
}

/// Appends a run of bytes.
pub fn push_bytes(buf: &mut Vec<u8>, bytes: &[u8])
    ensures
        final(buf)@ == old(buf)@ + bytes@,
{
    let ghost start = buf@;
    for i in 0..bytes.len()
        invariant
            buf@ == start + bytes@.take(i as int),
    {
        buf.push(bytes[i]);
        assert(bytes@.take(i + 1) =~= bytes@.take(i as int).push(bytes@[i as int]));
    }
    assert(bytes@.take(bytes@.len() as int) =~= bytes@);
}

// ---------------------------------------------------------------------------
// Cursor
// ---------------------------------------------------------------------------

/// A place in a run of bytes.
pub struct Cursor<'a> {
    pub data: &'a [u8],
    pub pos: usize,
}

impl<'a> Cursor<'a> {
    /// A cursor at the start of the data.
    pub fn new(data: &'a [u8]) -> (r: Cursor<'a>)
        ensures
            r.data@ == data@,
            r.pos == 0,
    {
        Cursor { data, pos: 0 }
    }

    /// Takes the next `n` bytes.
    pub fn take(&mut self, n: usize) -> (r: Result<&'a [u8], DnsError>)
        ensures
            final(self).data@ == old(self).data@,
            if old(self).pos + n <= old(self).data@.len() {
                &&& r matches Ok(b)
                &&& b@ == old(self).data@.subrange(old(self).pos as int, old(self).pos + n)
                &&& final(self).pos == old(self).pos + n
            } else {
                r == Err::<&'a [u8], DnsError>(DnsError::FillBuffer) && final(self).pos == old(
                    self,
                ).pos
            },
    {
        let len: usize = self.data.len();
        if self.pos > len || n > len - self.pos {
            return Err(DnsError::FillBuffer);
        }
        let b = slice_subrange(self.data, self.pos, self.pos + n);
        self.pos = self.pos + n;
        Ok(b)
    }
}

// ---------------------------------------------------------------------------
// Names
// ---------------------------------------------------------------------------

/// The labels of the name at `pos` after `jumps` pointers were followed, and
/// the place just behind the name's own bytes: behind the zero byte or behind
/// the first pointer.
pub open spec fn scan_name(data: Seq<u8>, pos: int, jumps: int) -> Result<
    (Seq<Seq<char>>, int),
    DnsError,
>
    decreases MAX_JUMPS - jumps, data.len() - pos,
{
    if pos < 0 || pos >= data.len() {
        Err(DnsError::EndOfData)
    } else if data[pos] == 0 {
        Ok((Seq::empty(), pos + 1))
    } else if data[pos] >= 0xC0 {
        if pos + 1 >= data.len() {
            Err(DnsError::TruncatedPointer)
        } else {
            let offset = pointer_target(data[pos], data[pos + 1]);
            if offset >= data.len() {
                Err(DnsError::PointerOutOfBounds)
            } else if jumps >= MAX_JUMPS {
                Err(DnsError::TooManyJumps)
            } else {
                match scan_name(data, offset, jumps + 1) {
                    Ok((labels, _)) => Ok((labels, pos + 2)),
                    Err(e) => Err(e),
                }
            }
        }
    } else {
        let end = pos + 1 + data[pos];
        if end > data.len() {
            Err(DnsError::TruncatedLabel)
        } else if !valid_utf8(data.subrange(pos + 1, end)) {
            Err(DnsError::InvalidUtf8)
        } else {
            match scan_name(data, end, jumps) {
                Ok((labels, after)) => Ok(
                    (seq![decode_utf8(data.subrange(pos + 1, end))] + labels, after),
                ),
                Err(e) => Err(e),
            }
        }
    }
}

/// The offset that the two bytes of a compression pointer hold.
pub open spec fn pointer_target(a: u8, b: u8) -> int {
    (a % 64) * 256 + b
}

/// Labels joined by dots.
pub open spec fn joined(labels: Seq<Seq<char>>) -> Seq<char>
    decreases labels.len(),
{
    if labels.len() == 0 {
        Seq::empty()
    } else if labels.len() == 1 {
        labels[0]
    } else {
        joined(labels.drop_last()).push('.') + labels.last()
    }
}

/// The name at `pos` as text, and the place behind its bytes.
pub open spec fn name_at(data: Seq<u8>, pos: int) -> Result<(Seq<char>, int), DnsError> {
    match scan_name(data, pos, 0) {
        Ok((labels, end)) => Ok((joined(labels), end)),
        Err(e) => Err(e),
    }
}

/// What scanning from the start gives, once `labels` have been read, the name's
/// own bytes are known to end at `end` (if they are), and `rest` is what
/// scanning on gives.
spec fn scanned(
    labels: Seq<Seq<char>>,
    end: Option<int>,
    rest: Result<(Seq<Seq<char>>, int), DnsError>,
) -> Result<(Seq<Seq<char>>, int), DnsError> {
    match rest {
        Ok((more, after)) => Ok(
            (
                labels + more,
                if let Some(e) = end {
                    e
                } else {
                    after
                },
            ),
        ),
        Err(e) => Err(e),
    }
}

/// Reads the name at the cursor and leaves the cursor behind it. Where that
/// fails, the place of the cursor is unspecified.
pub fn parse_name(reader: &mut Cursor<'_>) -> (r: Result<String, DnsError>)
    ensures
        final(reader).data@ == old(reader).data@,
        match name_at(old(reader).data@, old(reader).pos as int) {
            Ok((name, end)) => {
                &&& r matches Ok(s)
                &&& s@ == name
                &&& final(reader).pos == end
            },
            Err(e) => r == Err::<String, DnsError>(e),
        },
{
    let data: &[u8] = reader.data;
    let len: usize = data.len();
    let ghost start = reader.pos as int;
    let ghost mut labels: Seq<Seq<char>> = Seq::empty();
    let mut name = String::new();
    let mut first: bool = true;
    let mut jumps: usize = 0;
    let mut jump_pos: Option<usize> = None;
    let mut pos: usize = reader.pos;
    assert(scan_name(data@, start, 0) == scanned(labels, None, scan_name(data@, pos as int, 0)))
        by {
        if let Ok((more, _)) = scan_name(data@, pos as int, 0) {
            assert(labels + more =~= more);
        }
    }
    loop
        invariant
            len == data@.len(),
            jumps <= MAX_JUMPS,
            first == (labels.len() == 0),
            name@ == joined(labels),
            data@ == old(reader).data@,
            reader.data@ == old(reader).data@,
            start == old(reader).pos,
            scan_name(data@, start, 0) == scanned(
                labels,
                match jump_pos {
                    Some(e) => Some(e as int),
                    None => None,
                },
                scan_name(data@, pos as int, jumps as int),
            ),
        decreases MAX_JUMPS - jumps, len - pos,
    {
        let ghost over = match jump_pos {
            Some(e) => Some(e as int),
            None => None,
        };
        if pos >= len {
            return Err(DnsError::EndOfData);
        }
        let b: u8 = data[pos];
        if b == 0 {
            reader.pos = match jump_pos {
                Some(p) => p,
                None => pos + 1,
            };
            assert(labels + Seq::<Seq<char>>::empty() =~= labels);
            return Ok(name);
        }
        if b >= 0xC0 {
            if len - pos < 2 {
                return Err(DnsError::TruncatedPointer);
            }
            let offset: usize = (b % 64) as usize * 256 + data[pos + 1] as usize;
            if offset >= len {
                return Err(DnsError::PointerOutOfBounds);
            }
            if jumps >= MAX_JUMPS {
                return Err(DnsError::TooManyJumps);
            }
            if jump_pos.is_none() {
                jump_pos = Some(pos + 2);
            }
            jumps = jumps + 1;
            pos = offset;
        } else {
            let n: usize = b as usize;
            if n > len - pos - 1 {
                return Err(DnsError::TruncatedLabel);
            }
            let bytes = slice_subrange(data, pos + 1, pos + 1 + n);
            match core::str::from_utf8(bytes) {
                Ok(label) => {
                    let ghost more = scan_name(data@, pos + 1 + n, jumps as int);
                    proof {
                        encode_utf8_decode_utf8(label@);
                        assert(decode_utf8(bytes@) == label@);
                        if let Ok((tail, _)) = more {
                            assert(labels + (seq![label@] + tail) =~= labels.push(label@) + tail);
                        }
                        assert(labels.push(label@).drop_last() =~= labels);
                    }
                    if first {
                        first = false;
                        name = label.to_owned();
                    } else {
                        name.push('.');
                        name.append(label);
                    }
                    proof {
                        labels = labels.push(label@);
                    }
                    pos = pos + 1 + n;
                },
                Err(_) => {
                    return Err(DnsError::InvalidUtf8);
                },
            }
        }
    }
}

/// The bytes of one label: its length, then its UTF-8 form. An empty label has
/// none.
pub open spec fn label_bytes(label: Seq<char>) -> Seq<u8> {
    if label.len() == 0 {
        Seq::empty()
    } else {
        seq![(encode_utf8(label).len() % 256) as u8] + encode_utf8(label)
    }
}

/// The bytes of a run of labels.
pub open spec fn labels_bytes(labels: Seq<Seq<char>>) -> Seq<u8>
    decreases labels.len(),
{
    if labels.len() == 0 {
        Seq::empty()
    } else {
        labels_bytes(labels.drop_last()) + label_bytes(labels.last())
    }
}

/// The bytes of a name: its labels, then a zero byte.
pub open spec fn wire_name(name: Seq<char>) -> Seq<u8> {
    labels_bytes(text::pieces(name, '.')).push(0)
}

/// The bytes of a name, without compression.
pub fn serialize_name(name: &str) -> (r: Vec<u8>)
    ensures
        r@ == wire_name(name@),
{
    let mut buf: Vec<u8> = Vec::new();
    let chars = text::chars_of(name);
    let labels = text::split(&chars, '.');
    let ghost all = text::pieces(name@, '.');
    assert(labels@.len() == all.len()) by {
        assert(text::texts(labels@).len() == all.len());
    }
    for i in 0..labels.len()
        invariant
            text::texts(labels@) == all,
            labels@.len() == all.len(),
            buf@ == labels_bytes(all.take(i as int)),
    {
        let label = labels[i].as_str();
        assert(label@ == all[i as int]) by {
            assert(text::texts(labels@)[i as int] == label@);
        }
        assert(all.take(i + 1).drop_last() =~= all.take(i as int));
        if label.is_empty() {
            assert(buf@ + Seq::<u8>::empty() =~= buf@);
        } else {
            let bytes = label.as_bytes();
            let n: usize = bytes.len();
            let ghost before_push = buf@;
            assert(n % 256 == n as u8) by (bit_vector);
            buf.push(
                #[verifier::truncate]
                (n as u8),
            );
            push_bytes(&mut buf, bytes);
            assert(buf@ =~= before_push + label_bytes(label@));
        }
    }
    assert(all.take(all.len() as int) =~= all);
    buf.push(0);
    buf
}

// ---------------------------------------------------------------------------
// Header
// ---------------------------------------------------------------------------

/// The fixed part at the start of every message.
#[derive(Debug, PartialEq, Eq)]
pub struct DnsHeader {
    pub id: u16,
    pub flags: u16,
    pub qdcount: u16,
    pub ancount: u16,
    pub nscount: u16,
    pub arcount: u16,
}

/// Size of a header in bytes.
pub const HEADER_LEN: usize = 12;

impl Clone for DnsHeader {
    fn clone(&self) -> (r: Self)
        ensures
            r == *self,
    {
        DnsHeader {
            id: self.id,
            flags: self.flags,
            qdcount: self.qdcount,
            ancount: self.ancount,
            nscount: self.nscount,
            arcount: self.arcount,
        }
    }
}

/// The header that stands at `pos`.
pub open spec fn header_at(data: Seq<u8>, pos: int) -> Result<(DnsHeader, int), DnsError> {
    if pos + HEADER_LEN > data.len() {
        Err(DnsError::FillBuffer)
    } else {
        Ok(
            (
                DnsHeader {
                    id: be16(data[pos], data[pos + 1]),
                    flags: be16(data[pos + 2], data[pos + 3]),
                    qdcount: be16(data[pos + 4], data[pos + 5]),
                    ancount: be16(data[pos + 6], data[pos + 7]),
                    nscount: be16(data[pos + 8], data[pos + 9]),
                    arcount: be16(data[pos + 10], data[pos + 11]),
                },
                pos + HEADER_LEN,
            ),
        )
    }
}

/// The bytes of a header.
pub open spec fn wire_header(h: DnsHeader) -> Seq<u8> {
    be16_bytes(h.id) + be16_bytes(h.flags) + be16_bytes(h.qdcount) + be16_bytes(h.ancount)
        + be16_bytes(h.nscount) + be16_bytes(h.arcount)
}

impl DnsHeader {
    /// A header with the given fields.
    #[allow(clippy::too_many_arguments)]
    pub fn new(
        id: u16,
        flags: u16,
        qdcount: u16,
        ancount: u16,
        nscount: u16,
        arcount: u16,
    ) -> (r: Self)
        ensures
            r == (DnsHeader { id, flags, qdcount, ancount, nscount, arcount }),
    {
        DnsHeader { id, flags, qdcount, ancount, nscount, arcount }
    }

    /// Reads the header at the cursor and leaves the cursor behind it. Where
    /// that fails, the place of the cursor is unspecified.
    pub fn parse(reader: &mut Cursor<'_>) -> (r: Result<Self, DnsError>)
        ensures
            final(reader).data@ == old(reader).data@,
            match header_at(old(reader).data@, old(reader).pos as int) {
                Ok((h, end)) => r == Ok::<Self, DnsError>(h) && final(reader).pos == end,
                Err(e) => r == Err::<Self, DnsError>(e),
            },
    {
        let b = reader.take(HEADER_LEN)?;
        Ok(
            DnsHeader {
                id: read_be16(b[0], b[1]),
                flags: read_be16(b[2], b[3]),
                qdcount: read_be16(b[4], b[5]),
                ancount: read_be16(b[6], b[7]),
                nscount: read_be16(b[8], b[9]),
                arcount: read_be16(b[10], b[11]),
            },
        )
    }

    /// The bytes of the header.
    pub fn serialize(&self) -> (r: Result<Vec<u8>, DnsError>)
        ensures
            r matches Ok(b) && b@ == wire_header(*self),
    {
        let mut buf: Vec<u8> = Vec::with_capacity(HEADER_LEN);
        push_be16(&mut buf, self.id);
        push_be16(&mut buf, self.flags);
        push_be16(&mut buf, self.qdcount);
        push_be16(&mut buf, self.ancount);
        push_be16(&mut buf, self.nscount);
        push_be16(&mut buf, self.arcount);
        assert(buf@ =~= wire_header(*self));
        Ok(buf)
    }
}

// ---------------------------------------------------------------------------
// Question
// ---------------------------------------------------------------------------

/// What a message asks for.
#[derive(Debug, PartialEq, Eq)]
pub struct DnsQuestion {
    pub name: String,
    pub qtype: u16,
    pub qclass: u16,
}

/// A question as a mathematical value.
#[verifier::ext_equal]
pub struct Question {
    pub name: Seq<char>,
    pub qtype: u16,
    pub qclass: u16,
}

impl View for DnsQuestion {
    type V = Question;

    open spec fn view(&self) -> Question {
        Question { name: self.name@, qtype: self.qtype, qclass: self.qclass }
    }
}

impl Clone for DnsQuestion {
    fn clone(&self) -> (r: Self)
        ensures
            r@ == self@,
    {
        DnsQuestion { name: self.name.clone(), qtype: self.qtype, qclass: self.qclass }
    }
}

/// The question that stands at `pos`, and the place behind it.
pub open spec fn question_at(data: Seq<u8>, pos: int) -> Result<(Question, int), DnsError> {
    match name_at(data, pos) {
        Err(e) => Err(e),
        Ok((name, p)) => if p + 4 > data.len() {
            Err(DnsError::FillBuffer)
        } else {
            Ok(
                (
                    Question {
                        name,
                        qtype: be16(data[p], data[p + 1]),
                        qclass: be16(data[p + 2], data[p + 3]),
                    },
                    p + 4,
                ),
            )
        },
    }
}

/// The bytes of a question.
pub open spec fn wire_question(q: Question) -> Seq<u8> {
    wire_name(q.name) + be16_bytes(q.qtype) + be16_bytes(q.qclass)
}

impl DnsQuestion {
    /// Reads the question at the cursor and leaves the cursor behind it. Where
    /// that fails, the place of the cursor is unspecified.
    pub fn parse(reader: &mut Cursor<'_>) -> (r: Result<Self, DnsError>)
        ensures
            final(reader).data@ == old(reader).data@,
            match question_at(old(reader).data@, old(reader).pos as int) {
                Ok((q, end)) => {
                    &&& r matches Ok(x)
                    &&& x@ == q
                    &&& final(reader).pos == end
                },
                Err(e) => r == Err::<Self, DnsError>(e),
            },
    {
        let name = parse_name(reader)?;
        let b = reader.take(4)?;
        Ok(DnsQuestion { name, qtype: read_be16(b[0], b[1]), qclass: read_be16(b[2], b[3]) })
    }

    /// The bytes of the question.
    pub fn serialize(&self) -> (r: Result<Vec<u8>, DnsError>)
        ensures
            r matches Ok(b) && b@ == wire_question(self@),
    {
        let mut buf = serialize_name(self.name.as_str());
        push_be16(&mut buf, self.qtype);
        push_be16(&mut buf, self.qclass);
        Ok(buf)
    }
}

// ---------------------------------------------------------------------------
// Resource record
// ---------------------------------------------------------------------------

/// One record of the answer, authority or additional section.
#[derive(Debug, PartialEq, Eq)]
pub struct DnsResourceRecord {
    pub name: String,
    pub rtype: u16,
    pub rclass: u16,
    pub ttl: u32,
    pub rdata: Vec<u8>,
    /// The name that a CNAME record leads to, with compression pointers
    /// followed; `None` for other records and where the data holds no name.
    pub cname_target: Option<String>,
}

/// A record as a mathematical value.
#[verifier::ext_equal]
pub struct Record {
    pub name: Seq<char>,
    pub rtype: u16,
    pub rclass: u16,
    pub ttl: u32,
    pub rdata: Seq<u8>,
    pub cname_target: Option<Seq<char>>,
}

/// View of an optional text.
pub open spec fn opt_view(s: Option<String>) -> Option<Seq<char>> {
    match s {
        Some(t) => Some(t@),
        None => None,
    }
}

impl View for DnsResourceRecord {
    type V = Record;

    open spec fn view(&self) -> Record {
        Record {
            name: self.name@,
            rtype: self.rtype,
            rclass: self.rclass,
            ttl: self.ttl,
            rdata: self.rdata@,
            cname_target: opt_view(self.cname_target),
        }
    }
}

impl Clone for DnsResourceRecord {
    fn clone(&self) -> (r: Self)
        ensures
            r@ == self@,
    {
        let mut rdata: Vec<u8> = Vec::new();
        push_bytes(&mut rdata, &self.rdata);
        DnsResourceRecord {
            name: self.name.clone(),
            rtype: self.rtype,
            rclass: self.rclass,
            ttl: self.ttl,
            rdata,
            cname_target: match &self.cname_target {
                Some(t) => Some(t.clone()),
                None => None,
            },
        }
    }
}

/// The record that stands at `pos`, and the place behind it.
pub open spec fn record_at(data: Seq<u8>, pos: int) -> Result<(Record, int), DnsError> {
    match name_at(data, pos) {
        Err(e) => Err(e),
        Ok((name, p)) => if p + 10 > data.len() {
            Err(DnsError::FillBuffer)
        } else {
            let rtype = be16(data[p], data[p + 1]);
            let start = p + 10;
            let end = start + be16(data[p + 8], data[p + 9]);
            if end > data.len() {
                Err(DnsError::FillBuffer)
            } else {
                Ok(
                    (
                        Record {
                            name,
                            rtype,
                            rclass: be16(data[p + 2], data[p + 3]),
                            ttl: be32(data[p + 4], data[p + 5], data[p + 6], data[p + 7]),
                            rdata: data.subrange(start, end),
                            cname_target: target_at(data, start, rtype),
                        },
                        end,
                    ),
                )
            }
        },
    }
}

/// The alias target of a record of type `rtype` whose data starts at `start`.
pub open spec fn target_at(data: Seq<u8>, start: int, rtype: u16) -> Option<Seq<char>> {
    if rtype == TYPE_CNAME {
        match name_at(data, start) {
            Ok((target, _)) => Some(target),
            Err(_) => None,
        }
    } else {
        None
    }
}

/// The bytes of a record.
pub open spec fn wire_record(r: Record) -> Seq<u8> {
    wire_name(r.name) + be16_bytes(r.rtype) + be16_bytes(r.rclass) + be32_bytes(r.ttl)
        + be16_bytes((r.rdata.len() % 65536) as u16) + r.rdata
}

impl DnsResourceRecord {
    /// Reads the record at the cursor and leaves the cursor behind it. Where
    /// that fails, the place of the cursor is unspecified.
    pub fn parse(reader: &mut Cursor<'_>) -> (r: Result<Self, DnsError>)
        ensures
            final(reader).data@ == old(reader).data@,
            match record_at(old(reader).data@, old(reader).pos as int) {
                Ok((rec, end)) => {
                    &&& r matches Ok(x)
                    &&& x@ == rec
                    &&& final(reader).pos == end
                },
                Err(e) => r == Err::<Self, DnsError>(e),
            },
    {
        let name = parse_name(reader)?;
        let b = reader.take(10)?;
        let rtype = read_be16(b[0], b[1]);
        let rclass = read_be16(b[2], b[3]);
        let ttl = read_be32(b[4], b[5], b[6], b[7]);
        let rdlength = read_be16(b[8], b[9]);
        let start: usize = reader.pos;
        let data: &[u8] = reader.data;
        let bytes = reader.take(rdlength as usize)?;
        let mut rdata: Vec<u8> = Vec::new();
        push_bytes(&mut rdata, bytes);
        let cname_target = if rtype == TYPE_CNAME {
            let mut inner = Cursor { data, pos: start };
            match parse_name(&mut inner) {
                Ok(target) => Some(target),
                Err(_) => None,
            }
        } else {
            None
        };
        assert(rdata@ =~= bytes@);
        Ok(DnsResourceRecord { name, rtype, rclass, ttl, rdata, cname_target })
    }

    /// The bytes of the record.
    pub fn serialize(&self) -> (r: Result<Vec<u8>, DnsError>)
        ensures
            r matches Ok(b) && b@ == wire_record(self@),
    {
        let mut buf = serialize_name(self.name.as_str());
        push_be16(&mut buf, self.rtype);
        push_be16(&mut buf, self.rclass);
        push_be32(&mut buf, self.ttl);
        push_be16(&mut buf, low16(self.rdata.len()));
        push_bytes(&mut buf, &self.rdata);
        Ok(buf)
    }
}

/// The low sixteen bits of a length.
pub fn low16(n: usize) -> (r: u16)
    ensures
        r == n % 65536,
{
    assert(n % 65536 == n as u16) by (bit_vector);
    #[verifier::truncate]
    (n as u16)
}

// ---------------------------------------------------------------------------
// Message
// ---------------------------------------------------------------------------

/// A whole DNS message.
#[derive(Debug, PartialEq, Eq)]
pub struct DnsMessage {
    pub header: DnsHeader,
    pub questions: Vec<DnsQuestion>,
    pub answers: Vec<DnsResourceRecord>,
    pub authorities: Vec<DnsResourceRecord>,
    pub additionals: Vec<DnsResourceRecord>,
    pub edns_do: bool,
}

/// A message as a mathematical value.
#[verifier::ext_equal]
pub struct Message {
    pub header: DnsHeader,
    pub questions: Seq<Question>,
    pub answers: Seq<Record>,
    pub authorities: Seq<Record>,
    pub additionals: Seq<Record>,
    pub edns_do: bool,
}

/// Views of questions.
pub open spec fn question_views(v: Seq<DnsQuestion>) -> Seq<Question> {
    v.map_values(|q: DnsQuestion| q@)
}

/// Views of records.
pub open spec fn record_views(v: Seq<DnsResourceRecord>) -> Seq<Record> {
    v.map_values(|r: DnsResourceRecord| r@)
}

impl View for DnsMessage {
    type V = Message;

    open spec fn view(&self) -> Message {
        Message {
            header: self.header,
            questions: question_views(self.questions@),
            answers: record_views(self.answers@),
            authorities: record_views(self.authorities@),
            additionals: record_views(self.additionals@),
            edns_do: self.edns_do,
        }
    }
}

/// A copy of a run of questions.
pub fn copy_questions(v: &[DnsQuestion]) -> (r: Vec<DnsQuestion>)
    ensures
        question_views(r@) == question_views(v@),
{
    let mut out: Vec<DnsQuestion> = Vec::new();
    for i in 0..v.len()
        invariant
            question_views(out@) == question_views(v@).take(i as int),
    {
        let ghost before_push = out@;
        out.push(v[i].clone());
        assert(question_views(out@) =~= question_views(before_push).push(v@[i as int]@));
        assert(question_views(v@).take(i + 1) =~= question_views(v@).take(i as int).push(
            v@[i as int]@,
        ));
    }
    assert(question_views(v@).take(v@.len() as int) =~= question_views(v@));
    out
}

/// A copy of a run of records.
pub fn copy_records(v: &[DnsResourceRecord]) -> (r: Vec<DnsResourceRecord>)
    ensures
        record_views(r@) == record_views(v@),
{
    let mut out: Vec<DnsResourceRecord> = Vec::new();
    for i in 0..v.len()
        invariant
            record_views(out@) == record_views(v@).take(i as int),
    {
        let ghost before_push = out@;
        out.push(v[i].clone());
        assert(record_views(out@) =~= record_views(before_push).push(v@[i as int]@));
        assert(record_views(v@).take(i + 1) =~= record_views(v@).take(i as int).push(
            v@[i as int]@,
        ));
    }
    assert(record_views(v@).take(v@.len() as int) =~= record_views(v@));
    out
}

impl Clone for DnsMessage {
    fn clone(&self) -> (r: Self)
        ensures
            r@ == self@,
    {
        DnsMessage {
            header: self.header.clone(),
            questions: copy_questions(&self.questions),
            answers: copy_records(&self.answers),
            authorities: copy_records(&self.authorities),
            additionals: copy_records(&self.additionals),
            edns_do: self.edns_do,
        }
    }
}

/// The `n` questions that stand one behind the other from `pos`.
pub open spec fn questions_at(data: Seq<u8>, pos: int, n: int) -> Result<
    (Seq<Question>, int),
    DnsError,
>
    decreases n,
{
    if n <= 0 {
        Ok((Seq::empty(), pos))
    } else {
        match questions_at(data, pos, n - 1) {
            Err(e) => Err(e),
            Ok((front, p)) => match question_at(data, p) {
                Err(e) => Err(e),
                Ok((q, end)) => Ok((front.push(q), end)),
            },
        }
    }
}

/// The `n` records that stand one behind the other from `pos`.
pub open spec fn records_at(data: Seq<u8>, pos: int, n: int) -> Result<
    (Seq<Record>, int),
    DnsError,
>
    decreases n,
{
    if n <= 0 {
        Ok((Seq::empty(), pos))
    } else {
        match records_at(data, pos, n - 1) {
            Err(e) => Err(e),
            Ok((front, p)) => match record_at(data, p) {
                Err(e) => Err(e),
                Ok((r, end)) => Ok((front.push(r), end)),
            },
        }
    }
}

proof fn lemma_questions_fail(data: Seq<u8>, pos: int, m: int, n: int)
    requires
        0 <= m <= n,
        questions_at(data, pos, m) is Err,
    ensures
        questions_at(data, pos, n) == questions_at(data, pos, m),
    decreases n,
{
    if m < n {
        lemma_questions_fail(data, pos, m, n - 1);
    }
}

proof fn lemma_records_fail(data: Seq<u8>, pos: int, m: int, n: int)
    requires
        0 <= m <= n,
        records_at(data, pos, m) is Err,
    ensures
        records_at(data, pos, n) == records_at(data, pos, m),
    decreases n,
{
    if m < n {
        lemma_records_fail(data, pos, m, n - 1);
    }
}

/// Whether a record is an OPT record with the DO bit set.
pub open spec fn wants_dnssec(r: Record) -> bool {
    r.rtype == TYPE_OPT && r.ttl & DO_BIT != 0
}

/// Whether one of the records is an OPT record with the DO bit set.
pub open spec fn any_wants_dnssec(rs: Seq<Record>) -> bool {
    exists|i: int| 0 <= i < rs.len() && wants_dnssec(#[trigger] rs[i])
}

/// The message that a run of bytes holds.
pub open spec fn message_at(data: Seq<u8>) -> Result<Message, DnsError> {
    match header_at(data, 0) {
        Err(e) => Err(e),
        Ok((header, p0)) => match questions_at(data, p0, header.qdcount as int) {
            Err(e) => Err(e),
            Ok((questions, p1)) => match records_at(data, p1, header.ancount as int) {
                Err(e) => Err(e),
                Ok((answers, p2)) => match records_at(data, p2, header.nscount as int) {
                    Err(e) => Err(e),
                    Ok((authorities, p3)) => match records_at(data, p3, header.arcount as int) {
                        Err(e) => Err(e),
                        Ok((additionals, _)) => Ok(
                            Message {
                                header,
                                questions,
                                answers,
                                authorities,
                                additionals,
                                edns_do: any_wants_dnssec(additionals),
                            },
                        ),
                    },
                },
            },
        },
    }
}

/// The bytes of a run of questions.
pub open spec fn wire_questions(qs: Seq<Question>) -> Seq<u8>
    decreases qs.len(),
{
    if qs.len() == 0 {
        Seq::empty()
    } else {
        wire_questions(qs.drop_last()) + wire_question(qs.last())
    }
}

/// The bytes of a run of records.
pub open spec fn wire_records(rs: Seq<Record>) -> Seq<u8>
    decreases rs.len(),
{
    if rs.len() == 0 {
        Seq::empty()
    } else {
        wire_records(rs.drop_last()) + wire_record(rs.last())
    }
}

/// The header that goes out with a message: the number of additional records
/// is counted, the other fields are as they stand.
pub open spec fn outgoing_header(m: Message) -> DnsHeader {
    DnsHeader { arcount: (m.additionals.len() % 65536) as u16, ..m.header }
}

/// The bytes of a message.
#[verifier::opaque]
pub open spec fn wire_message(m: Message) -> Seq<u8> {
    wire_header(outgoing_header(m)) + wire_questions(m.questions) + wire_records(m.answers)
        + wire_records(m.authorities) + wire_records(m.additionals)
}

/// Reads `n` questions.
fn parse_questions(reader: &mut Cursor<'_>, n: u16) -> (r: Result<Vec<DnsQuestion>, DnsError>)
    ensures
        final(reader).data@ == old(reader).data@,
        match questions_at(old(reader).data@, old(reader).pos as int, n as int) {
            Ok((qs, end)) => {
                &&& r matches Ok(v)
                &&& question_views(v@) == qs
                &&& final(reader).pos == end
            },
            Err(e) => r == Err::<Vec<DnsQuestion>, DnsError>(e),
        },
{
    let ghost data = reader.data@;
    let ghost pos = reader.pos as int;
    let mut out: Vec<DnsQuestion> = Vec::new();
    assert(question_views(out@) =~= Seq::empty());
    let mut i: u16 = 0;
    while i < n
        invariant
            i <= n,
            data == old(reader).data@,
            pos == old(reader).pos,
            reader.data@ == data,
            questions_at(data, pos, i as int) == Ok::<(Seq<Question>, int), DnsError>(
                (question_views(out@), reader.pos as int),
            ),
        decreases n - i,
    {
        match DnsQuestion::parse(reader) {
            Ok(q) => {
                let ghost before_push = out@;
                let ghost v = q@;
                out.push(q);
                assert(question_views(out@) =~= question_views(before_push).push(v));
            },
            Err(e) => {
                proof {
                    lemma_questions_fail(data, pos, i + 1, n as int);
                }
                return Err(e);
            },
        }
        i = i + 1;
    }
    Ok(out)
}

/// Reads `n` records.
fn parse_records(reader: &mut Cursor<'_>, n: u16) -> (r: Result<Vec<DnsResourceRecord>, DnsError>)
    ensures
        final(reader).data@ == old(reader).data@,
        match records_at(old(reader).data@, old(reader).pos as int, n as int) {
            Ok((rs, end)) => {
                &&& r matches Ok(v)
                &&& record_views(v@) == rs
                &&& final(reader).pos == end
            },
            Err(e) => r == Err::<Vec<DnsResourceRecord>, DnsError>(e),
        },
{
    let ghost data = reader.data@;
    let ghost pos = reader.pos as int;
    let mut out: Vec<DnsResourceRecord> = Vec::new();
    assert(record_views(out@) =~= Seq::empty());
    let mut i: u16 = 0;
    while i < n
        invariant
            i <= n,
            data == old(reader).data@,
            pos == old(reader).pos,
            reader.data@ == data,
            records_at(data, pos, i as int) == Ok::<(Seq<Record>, int), DnsError>(
                (record_views(out@), reader.pos as int),
            ),
        decreases n - i,
    {
        match DnsResourceRecord::parse(reader) {
            Ok(x) => {
                let ghost before_push = out@;
                let ghost v = x@;
                out.push(x);
                assert(record_views(out@) =~= record_views(before_push).push(v));
            },
            Err(e) => {
                proof {
                    lemma_records_fail(data, pos, i + 1, n as int);
                }
                return Err(e);
            },
        }
        i = i + 1;
    }
    Ok(out)
}

/// Whether one of the records is an OPT record with the DO bit set.
fn detect_do(rs: &[DnsResourceRecord]) -> (r: bool)
    ensures
        r == any_wants_dnssec(record_views(rs@)),
{
    for i in 0..rs.len()
        invariant
            forall|j: int| 0 <= j < i ==> !wants_dnssec(#[trigger] record_views(rs@)[j]),
    {
        assert(record_views(rs@)[i as int] == rs@[i as int]@);
        if rs[i].rtype == TYPE_OPT && (rs[i].ttl & DO_BIT) != 0 {
            return true;
        }
    }
    false
}

impl DnsMessage {
    /// Reads a message.
    pub fn parse(data: &[u8]) -> (r: Result<Self, DnsError>)
        ensures
            match message_at(data@) {
                Ok(m) => r matches Ok(x) && x@ == m,
                Err(e) => r == Err::<Self, DnsError>(e),
            },
    {
        let mut reader = Cursor::new(data);
        let header = DnsHeader::parse(&mut reader)?;
        let questions = parse_questions(&mut reader, header.qdcount)?;
        let answers = parse_records(&mut reader, header.ancount)?;
        let authorities = parse_records(&mut reader, header.nscount)?;
        let additionals = parse_records(&mut reader, header.arcount)?;
        let edns_do = detect_do(&additionals);
        Ok(DnsMessage { header, questions, answers, authorities, additionals, edns_do })
    }

    /// The bytes of the message, without name compression. The number of
    /// additional records is counted; the other counts come from the header.
    pub fn serialize(&self) -> (r: Result<Vec<u8>, DnsError>)
        ensures
            r matches Ok(b) && b@ == wire_message(self@),
    {
        let mut header = self.header.clone();
        header.arcount = low16(self.additionals.len());
        let mut buf = header.serialize()?;
        push_questions(&mut buf, &self.questions)?;
        push_records(&mut buf, &self.answers)?;
        push_records(&mut buf, &self.authorities)?;
        push_records(&mut buf, &self.additionals)?;
        reveal(wire_message);
        Ok(buf)
    }
}

/// Appends the bytes of a run of questions.
fn push_questions(buf: &mut Vec<u8>, qs: &[DnsQuestion]) -> (r: Result<(), DnsError>)
    ensures
        r is Ok,
        final(buf)@ == old(buf)@ + wire_questions(question_views(qs@)),
{
    let ghost start = buf@;
    let ghost all = question_views(qs@);
    assert(start + wire_questions(all.take(0)) =~= start);
    for i in 0..qs.len()
        invariant
            all == question_views(qs@),
            buf@ == start + wire_questions(all.take(i as int)),
    {
        let bytes = qs[i].serialize()?;
        assert(all.take(i + 1).drop_last() =~= all.take(i as int));
        assert(all.take(i + 1).last() == qs@[i as int]@);
        push_bytes(buf, &bytes);
        assert(buf@ =~= start + wire_questions(all.take(i + 1)));
    }
    assert(all.take(all.len() as int) =~= all);
    Ok(())
}

/// Appends the bytes of a run of records.
fn push_records(buf: &mut Vec<u8>, rs: &[DnsResourceRecord]) -> (r: Result<(), DnsError>)
    ensures
        r is Ok,
        final(buf)@ == old(buf)@ + wire_records(record_views(rs@)),
{
    let ghost start = buf@;
    let ghost all = record_views(rs@);
    assert(start + wire_records(all.take(0)) =~= start);
    for i in 0..rs.len()
        invariant
            all == record_views(rs@),
            buf@ == start + wire_records(all.take(i as int)),
    {
        let bytes = rs[i].serialize()?;
        assert(all.take(i + 1).drop_last() =~= all.take(i as int));
        assert(all.take(i + 1).last() == rs@[i as int]@);
        push_bytes(buf, &bytes);
        assert(buf@ =~= start + wire_records(all.take(i + 1)));
    }
    assert(all.take(all.len() as int) =~= all);
    Ok(())
}

// ---------------------------------------------------------------------------
// EDNS0
// ---------------------------------------------------------------------------

/// A TTL with the DO bit set, and the other bits as they are.
pub open spec fn with_do_bit(ttl: u32) -> u32 {
    ttl | DO_BIT
}

/// The place of the first OPT record, or the number of records where there is
/// none.
pub open spec fn opt_index(rs: Seq<Record>) -> int
    decreases rs.len(),
{
    if rs.len() == 0 || rs[0].rtype == TYPE_OPT {
        0
    } else {
        1 + opt_index(rs.drop_first())
    }
}

/// The OPT record added to a message that has none.
pub open spec fn fresh_opt(buffer_size: u16) -> Record {
    Record {
        name: Seq::empty(),
        rtype: TYPE_OPT,
        rclass: buffer_size,
        ttl: DO_BIT,
        rdata: Seq::empty(),
        cname_target: None,
    }
}

/// The message with an OPT record that advertises `buffer_size` and has the DO
/// bit set: its first OPT record rewritten, or a new one at the end.
pub open spec fn with_opt_record(m: Message, buffer_size: u16) -> Message {
    let i = opt_index(m.additionals);
    if i < m.additionals.len() {
        let opt = m.additionals[i];
        Message {
            additionals: m.additionals.update(
                i,
                Record { rclass: buffer_size, ttl: with_do_bit(opt.ttl), ..opt },
            ),
            ..m
        }
    } else {
        Message {
            header: DnsHeader { arcount: (m.header.arcount + 1) as u16, ..m.header },
            additionals: m.additionals.push(fresh_opt(buffer_size)),
            ..m
        }
    }
}

/// `opt_index` is the place of the first OPT record.
pub proof fn lemma_opt_index(rs: Seq<Record>, n: int)
    requires
        0 <= n <= rs.len(),
        forall|j: int| 0 <= j < n ==> #[trigger] rs[j].rtype != TYPE_OPT,
        n == rs.len() || rs[n].rtype == TYPE_OPT,
    ensures
        opt_index(rs) == n,
    decreases rs.len(),
{
    if n > 0 {
        assert(rs[0].rtype != TYPE_OPT);
        assert forall|j: int| 0 <= j < n - 1 implies #[trigger] rs.drop_first()[j].rtype
            != TYPE_OPT by {
            assert(rs.drop_first()[j] == rs[j + 1]);
        }
        lemma_opt_index(rs.drop_first(), n - 1);
    }
}

/// The place of the first OPT record, or the number of records where there is
/// none.
pub fn find_opt(rs: &[DnsResourceRecord]) -> (r: usize)
    ensures
        r == opt_index(record_views(rs@)),
        r <= rs@.len(),
        r < rs@.len() ==> rs@[r as int].rtype == TYPE_OPT,
{
    let mut i: usize = 0;
    while i < rs.len() && rs[i].rtype != TYPE_OPT
        invariant
            i <= rs.len(),
            forall|j: int| 0 <= j < i ==> #[trigger] record_views(rs@)[j].rtype != TYPE_OPT,
        decreases rs.len() - i,
    {
        i = i + 1;
    }
    proof {
        lemma_opt_index(record_views(rs@), i as int);
    }
    i
}

impl DnsMessage {
    /// Makes the message advertise `buffer_size` and ask for DNSSEC records: an
    /// OPT record that is there is rewritten in place, its options kept;
    /// otherwise one is added.
    pub fn add_opt_record(&mut self, buffer_size: u16)
        requires
            opt_index(old(self)@.additionals) < old(self)@.additionals.len()
                || old(self).header.arcount < u16::MAX,
        ensures
            final(self)@ == with_opt_record(old(self)@, buffer_size),
    {
        let i = find_opt(&self.additionals);
        if i < self.additionals.len() {
            let ghost before = self.additionals@;
            let ttl: u32 = self.additionals[i].ttl;
            let new_ttl: u32 = ttl | DO_BIT;
            self.additionals[i].rclass = buffer_size;
            self.additionals[i].ttl = new_ttl;
            assert(record_views(self.additionals@) =~= record_views(before).update(
                i as int,
                Record {
                    rclass: buffer_size,
                    ttl: with_do_bit(ttl),
                    ..record_views(before)[i as int]
                },
            ));
        } else {
            let ghost before = self.additionals@;
            let opt = DnsResourceRecord {
                name: String::new(),
                rtype: TYPE_OPT,
                rclass: buffer_size,
                ttl: DO_BIT,
                rdata: Vec::new(),
                cname_target: None,
            };
            self.additionals.push(opt);
            self.header.arcount = self.header.arcount + 1;
            assert(record_views(self.additionals@) =~= record_views(before).push(
                fresh_opt(buffer_size),
            ));
        }
    }
}

/// Which failures are of data that ends too early; the others are of data that is
/// wrong. What each is called.
pub proof fn law_error_texts(e: DnsError)
    ensures
        e.spec_kind() == ErrorKind::UnexpectedEof <==> e == DnsError::EndOfData || e
            == DnsError::TruncatedPointer || e == DnsError::TruncatedLabel || e
            == DnsError::FillBuffer,
        e.spec_kind() == ErrorKind::InvalidData <==> e == DnsError::PointerOutOfBounds || e
            == DnsError::TooManyJumps || e == DnsError::InvalidUtf8,
        e == DnsError::EndOfData ==> e.message() == "End of data"@,
        e == DnsError::TruncatedPointer ==> e.message() == "Truncated compression pointer"@,
        e == DnsError::PointerOutOfBounds ==> e.message() == "Pointer out of bounds"@,
        e == DnsError::TooManyJumps ==> e.message() == "Too many DNS name compression jumps"@,
        e == DnsError::TruncatedLabel ==> e.message() == "Truncated label"@,
        e == DnsError::InvalidUtf8 ==> e.message() == "Invalid UTF-8 in label"@,
        e == DnsError::FillBuffer ==> e.message() == "failed to fill whole buffer"@,
{
}

/// Adding an OPT record makes the first one of a message advertise the size and set the
/// DO bit, the 0x8000 of its TTL, its other parts and the other records as they are; a
/// message without one gets one at the end, for the root, and one more additional record
/// is counted.
pub proof fn law_opt_record_added(m: Message, size: u16, i: int)
    requires
        0 <= i <= m.additionals.len(),
        forall|j: int| 0 <= j < i ==> (#[trigger] m.additionals[j]).rtype != 41,
        i < m.additionals.len() ==> m.additionals[i].rtype == 41,
        m.header.arcount < u16::MAX,
    ensures
        ({
            let w = with_opt_record(m, size);
            let opt = w.additionals[i];
            &&& w.questions == m.questions && w.answers == m.answers && w.authorities
                == m.authorities
            &&& w.header.id == m.header.id && w.header.flags == m.header.flags
            &&& forall|j: int|
                0 <= j < m.additionals.len() && j != i ==> #[trigger] w.additionals[j]
                    == m.additionals[j]
            &&& opt.rtype == 41 && opt.rclass == size && opt.ttl & 0x8000 != 0
            &&& i < m.additionals.len() ==> {
                &&& w.additionals.len() == m.additionals.len()
                &&& w.header == m.header
                &&& opt.name == m.additionals[i].name
                &&& opt.rdata == m.additionals[i].rdata
                &&& opt.ttl & 0xffff_7fff == m.additionals[i].ttl & 0xffff_7fff
            }
            &&& i == m.additionals.len() ==> {
                &&& w.additionals.len() == m.additionals.len() + 1
                &&& w.header.arcount == m.header.arcount + 1
                &&& opt.name.len() == 0 && opt.rdata.len() == 0
                &&& opt.ttl == 0x8000
            }
        }),
{
    lemma_opt_index(m.additionals, i);
    if i < m.additionals.len() {
        let ttl = m.additionals[i].ttl;
        assert((ttl | 0x8000u32) & 0x8000u32 != 0) by (bit_vector);
        assert((ttl | 0x8000u32) & 0xffff_7fffu32 == ttl & 0xffff_7fffu32) by (bit_vector);
    } else {
        assert(0x8000u32 & 0x8000u32 != 0) by (bit_vector);
    }
}

/// A message stands for its parts: its header, its questions, and the records of its
/// three sections, each in order.
pub proof fn law_message_parts(m: DnsMessage, i: int)
    ensures
        m@.header == m.header,
        m@.edns_do == m.edns_do,
        m@.questions.len() == m.questions@.len(),
        m@.answers.len() == m.answers@.len(),
        m@.authorities.len() == m.authorities@.len(),
        m@.additionals.len() == m.additionals@.len(),
        0 <= i < m.questions@.len() ==> {
            let q = m.questions@[i];
            &&& m@.questions[i].name == q.name@
            &&& m@.questions[i].qtype == q.qtype
            &&& m@.questions[i].qclass == q.qclass
        },
        0 <= i < m.answers@.len() ==> stands_for(m.answers@[i], m@.answers[i]),
        0 <= i < m.authorities@.len() ==> stands_for(m.authorities@[i], m@.authorities[i]),
        0 <= i < m.additionals@.len() ==> stands_for(m.additionals@[i], m@.additionals[i]),
{
}

/// Whether a record stands for a mathematical one.
pub open spec fn stands_for(r: DnsResourceRecord, v: Record) -> bool {
    &&& v.name == r.name@
    &&& v.rtype == r.rtype
    &&& v.rclass == r.rclass
    &&& v.ttl == r.ttl
    &&& v.rdata == r.rdata@
    &&& r.cname_target is Some ==> v.cname_target == Some(r.cname_target->Some_0@)
    &&& r.cname_target is None ==> v.cname_target is None
}

} // verus!
