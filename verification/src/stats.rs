//! Statistics over logged queries: reading journal entries, choosing among
//! them, and laying them out for people.
use vstd::prelude::*;
use crate::calendar;
use crate::dns;
use crate::number;
use crate::text;

verus! {

// ---------------------------------------------------------------------------
// Entries
// ---------------------------------------------------------------------------

/// A logged query.
#[derive(Debug, PartialEq, Eq)]
pub struct QueryEntry {
    pub timestamp: String,
    pub source: String,
    pub domain: String,
    pub qtype: String,
    pub action: String,
    pub rule: String,
}

/// A logged query as a mathematical value.
#[verifier::ext_equal]
pub struct Row {
    pub timestamp: Seq<char>,
    pub source: Seq<char>,
    pub domain: Seq<char>,
    pub qtype: Seq<char>,
    pub action: Seq<char>,
    pub rule: Seq<char>,
}

impl View for QueryEntry {
    type V = Row;

    open spec fn view(&self) -> Row {
        Row {
            timestamp: self.timestamp@,
            source: self.source@,
            domain: self.domain@,
            qtype: self.qtype@,
            action: self.action@,
            rule: self.rule@,
        }
    }
}

impl Clone for QueryEntry {
    fn clone(&self) -> (r: Self)
        ensures
            r@ == self@,
    {
        QueryEntry {
            timestamp: self.timestamp.clone(),
            source: self.source.clone(),
            domain: self.domain.clone(),
            qtype: self.qtype.clone(),
            action: self.action.clone(),
            rule: self.rule.clone(),
        }
    }
}

/// Views of logged queries.
pub open spec fn rows(v: Seq<QueryEntry>) -> Seq<Row> {
    v.map_values(|e: QueryEntry| e@)
}

/// The fields of a journal entry that matter here, where it has them.
#[derive(Debug)]
pub struct JournalEntry {
    pub timestamp: Option<String>,
    pub source: Option<String>,
    pub domain: Option<String>,
    pub qtype: Option<String>,
    pub action: Option<String>,
    pub rule: Option<String>,
}

/// The text, or nothing where there is none.
pub open spec fn or_empty(s: Option<String>) -> Seq<char> {
    match s {
        Some(t) => t@,
        None => Seq::empty(),
    }
}

/// The text, or nothing where there is none.
fn take_text(s: &Option<String>) -> (r: String)
    ensures
        r@ == or_empty(*s),
{
    match s {
        Some(t) => t.clone(),
        None => {
            let e = String::new();
            assert(e@ =~= Seq::empty());
            e
        },
    }
}

/// The time of day and the date of a number of seconds since the first day of
/// 1970, as `YYYY-MM-DD HH:MM:SS`.
pub open spec fn time_text(secs: int) -> Seq<char> {
    let date = calendar::date_of(secs / 86400);
    let rest = secs % 86400;
    number::zero_padded(number::decimal(date.0), 4) + "-"@ + number::zero_padded(
        number::decimal(date.1),
        2,
    ) + "-"@ + number::zero_padded(number::decimal(date.2), 2) + " "@ + number::zero_padded(
        number::decimal(rest / 3600),
        2,
    ) + ":"@ + number::zero_padded(number::decimal(rest % 3600 / 60), 2) + ":"@
        + number::zero_padded(number::decimal(rest % 60), 2)
}

/// The text for a timestamp in microseconds; nothing where there is no
/// timestamp, where it is no number, and where it is zero.
pub open spec fn timestamp_text(us: Option<Seq<char>>) -> Seq<char> {
    match us {
        None => Seq::empty(),
        Some(s) => match number::written_u64(s) {
            None => Seq::empty(),
            Some(n) => if n == 0 {
                Seq::empty()
            } else {
                time_text((n / 1_000_000) as int)
            },
        },
    }
}

/// View of an optional text.
pub open spec fn str_view(s: Option<&str>) -> Option<Seq<char>> {
    match s {
        Some(t) => Some(t@),
        None => None,
    }
}

/// The text for a timestamp in microseconds.
pub fn format_timestamp(us: Option<&str>) -> (r: String)
    ensures
        r@ == timestamp_text(str_view(us)),
{
    let n: u64 = match us {
        Some(s) => match number::parse_u64(s) {
            Some(n) => n,
            None => 0,
        },
        None => 0,
    };
    let mut out = String::new();
    assert(out@ =~= Seq::empty());
    if n == 0 {
        return out;
    }
    let secs: u64 = n / 1_000_000;
    let rest: u64 = secs % 86400;
    let (year, month, day): (u64, u64, u64) = calendar::days_to_ymd(secs / 86400);
    proof {
        let days = (secs / 86400) as int;
        calendar::lemma_year_range(calendar::date_of(days), days);
    }
    out.append(number::to_padded_decimal(year, 4).as_str());
    out.append("-");
    out.append(number::to_padded_decimal(month, 2).as_str());
    out.append("-");
    out.append(number::to_padded_decimal(day, 2).as_str());
    out.append(" ");
    out.append(number::to_padded_decimal(rest / 3600, 2).as_str());
    out.append(":");
    out.append(number::to_padded_decimal(rest % 3600 / 60, 2).as_str());
    out.append(":");
    out.append(number::to_padded_decimal(rest % 60, 2).as_str());
    assert(out@ =~= time_text(secs as int));
    out
}

/// The logged query of a journal entry; `None` for an entry that has neither an
/// action nor a domain, which is no query.
pub open spec fn entry_row(e: JournalEntry) -> Option<Row> {
    if e.action is None && e.domain is None {
        None
    } else {
        Some(
            Row {
                timestamp: timestamp_text(dns::opt_view(e.timestamp)),
                source: or_empty(e.source),
                domain: or_empty(e.domain),
                qtype: or_empty(e.qtype),
                action: or_empty(e.action),
                rule: or_empty(e.rule),
            },
        )
    }
}

/// The logged queries of journal entries, in order.
pub open spec fn entry_rows(v: Seq<JournalEntry>) -> Seq<Row>
    decreases v.len(),
{
    if v.len() == 0 {
        Seq::empty()
    } else {
        match entry_row(v.last()) {
            Some(row) => entry_rows(v.drop_last()).push(row),
            None => entry_rows(v.drop_last()),
        }
    }
}

/// The logged queries of journal entries. Entries that are no queries are
/// passed over.
pub fn parse_entries(entries: &[JournalEntry]) -> (r: Vec<QueryEntry>)
    ensures
        rows(r@) == entry_rows(entries@),
{
    let mut out: Vec<QueryEntry> = Vec::new();
    for i in 0..entries.len()
        invariant
            rows(out@) == entry_rows(entries@.take(i as int)),
    {
        let e = &entries[i];
        assert(entries@.take(i + 1).drop_last() =~= entries@.take(i as int));
        if e.action.is_some() || e.domain.is_some() {
            let timestamp = match &e.timestamp {
                Some(t) => format_timestamp(Some(t.as_str())),
                None => format_timestamp(None),
            };
            let entry = QueryEntry {
                timestamp,
                source: take_text(&e.source),
                domain: take_text(&e.domain),
                qtype: take_text(&e.qtype),
                action: take_text(&e.action),
                rule: take_text(&e.rule),
            };
            let ghost before = out@;
            let ghost row = entry@;
            out.push(entry);
            assert(rows(out@) =~= rows(before).push(row));
            assert(entry_row(*e) == Some(row));
        }
    }
    assert(entries@.take(entries@.len() as int) =~= entries@);
    out
}

/// The lines that hold more than white space.
pub open spec fn written_lines(lines: Seq<Seq<char>>) -> Seq<Seq<char>>
    decreases lines.len(),
{
    if lines.len() == 0 {
        Seq::empty()
    } else if text::trimmed(lines.last()).len() == 0 {
        written_lines(lines.drop_last())
    } else {
        written_lines(lines.drop_last()).push(lines.last())
    }
}

/// The lines of a journal, one entry each, without blank ones.
pub fn journal_lines(journal: &str) -> (r: Vec<String>)
    ensures
        text::texts(r@) == written_lines(text::lines(journal@)),
{
    let lines = text::split_lines(journal);
    let ghost all = text::lines(journal@);
    assert(lines@.len() == all.len()) by {
        assert(text::texts(lines@).len() == all.len());
    }
    let mut out: Vec<String> = Vec::new();
    for i in 0..lines.len()
        invariant
            text::texts(lines@) == all,
            lines@.len() == all.len(),
            text::texts(out@) == written_lines(all.take(i as int)),
    {
        assert(text::texts(lines@)[i as int] == lines@[i as int]@);
        assert(all.take(i + 1).drop_last() =~= all.take(i as int));
        let chars = text::chars_of(lines[i].as_str());
        if !text::trim(&chars).is_empty() {
            let ghost before = out@;
            out.push(lines[i].clone());
            assert(text::texts(out@) =~= text::texts(before).push(all[i as int]));
        }
    }
    assert(all.take(all.len() as int) =~= all);
    out
}

// ---------------------------------------------------------------------------
// Choosing
// ---------------------------------------------------------------------------

/// Which logged queries to show, and how.
#[derive(Debug)]
pub struct StatsFilter {
    pub blocked: bool,
    pub allowed: bool,
    pub forwarded: bool,
    pub domain: Option<String>,
    pub src: Option<String>,
    pub since: Option<String>,
    pub summary: bool,
}

impl Default for StatsFilter {
    fn default() -> (r: Self)
        ensures
            r@ == no_filter(),
    {
        StatsFilter {
            blocked: false,
            allowed: false,
            forwarded: false,
            domain: None,
            src: None,
            since: None,
            summary: false,
        }
    }
}

/// Which logged queries to show, and how, as a mathematical value.
#[verifier::ext_equal]
pub struct Filter {
    pub blocked: bool,
    pub allowed: bool,
    pub forwarded: bool,
    pub domain: Option<Seq<char>>,
    pub src: Option<Seq<char>>,
    pub since: Option<Seq<char>>,
    pub summary: bool,
}

impl View for StatsFilter {
    type V = Filter;

    open spec fn view(&self) -> Filter {
        Filter {
            blocked: self.blocked,
            allowed: self.allowed,
            forwarded: self.forwarded,
            domain: dns::opt_view(self.domain),
            src: dns::opt_view(self.src),
            since: dns::opt_view(self.since),
            summary: self.summary,
        }
    }
}

/// No conditions.
pub open spec fn no_filter() -> Filter {
    Filter {
        blocked: false,
        allowed: false,
        forwarded: false,
        domain: None,
        src: None,
        since: None,
        summary: false,
    }
}

/// Whether a logged query is to be shown: it has each action that is asked for,
/// and its domain and source hold the texts that are asked for.
pub open spec fn passes(e: Row, f: Filter) -> bool {
    &&& f.blocked ==> e.action == "blocked"@
    &&& f.allowed ==> e.action == "allowed"@
    &&& f.forwarded ==> e.action == "forwarded"@
    &&& f.domain matches Some(d) ==> text::occurs_in(d, e.domain)
    &&& f.src matches Some(s) ==> text::occurs_in(s, e.source)
}

/// The logged queries that are to be shown, in order.
pub open spec fn chosen(v: Seq<Row>, f: Filter) -> Seq<Row>
    decreases v.len(),
{
    if v.len() == 0 {
        Seq::empty()
    } else if passes(v.last(), f) {
        chosen(v.drop_last(), f).push(v.last())
    } else {
        chosen(v.drop_last(), f)
    }
}

/// Whether a logged query is to be shown.
fn is_chosen(e: &QueryEntry, f: &StatsFilter) -> (r: bool)
    ensures
        r == passes(e@, f@),
{
    if f.blocked && !text::same_text(e.action.as_str(), "blocked") {
        return false;
    }
    if f.allowed && !text::same_text(e.action.as_str(), "allowed") {
        return false;
    }
    if f.forwarded && !text::same_text(e.action.as_str(), "forwarded") {
        return false;
    }
    if let Some(d) = &f.domain {
        if !text::contains_text(e.domain.as_str(), d.as_str()) {
            return false;
        }
    }
    if let Some(s) = &f.src {
        if !text::contains_text(e.source.as_str(), s.as_str()) {
            return false;
        }
    }
    true
}

/// The logged queries that are to be shown, in order.
pub fn filter_entries(entries: Vec<QueryEntry>, f: &StatsFilter) -> (r: Vec<QueryEntry>)
    ensures
        rows(r@) == chosen(rows(entries@), f@),
{
    let ghost all = rows(entries@);
    let mut out: Vec<QueryEntry> = Vec::new();
    for i in 0..entries.len()
        invariant
            all == rows(entries@),
            rows(out@) == chosen(all.take(i as int), f@),
    {
        assert(all.take(i + 1).drop_last() =~= all.take(i as int));
        assert(all[i as int] == entries@[i as int]@);
        if is_chosen(&entries[i], f) {
            let ghost before = out@;
            out.push(entries[i].clone());
            assert(rows(out@) =~= rows(before).push(all[i as int]));
        }
    }
    assert(all.take(all.len() as int) =~= all);
    out
}

/// Without conditions every logged query is shown.
pub proof fn law_no_filter_shows_all(v: Seq<Row>, f: Filter)
    requires
        !f.blocked && !f.allowed && !f.forwarded && f.domain is None && f.src is None,
    ensures
        chosen(v, f) == v,
    decreases v.len(),
{
    if v.len() > 0 {
        law_no_filter_shows_all(v.drop_last(), f);
        assert(chosen(v, f) =~= v);
    } else {
        assert(v =~= Seq::empty());
    }
}

/// A logged query is shown exactly where it is among those given and meets the
/// conditions; choosing again changes nothing.
pub proof fn law_filter(v: Seq<Row>, f: Filter)
    ensures
        forall|e: Row| #[trigger] chosen(v, f).contains(e) <==> v.contains(e) && passes(e, f),
        chosen(chosen(v, f), f) == chosen(v, f),
    decreases v.len(),
{
    if v.len() > 0 {
        let front = v.drop_last();
        law_filter(front, f);
        let c = chosen(v, f);
        assert(v =~= front.push(v.last()));
        assert forall|e: Row| #[trigger] c.contains(e) <==> v.contains(e) && passes(e, f) by {
            lemma_push_contains(front, v.last(), e);
            lemma_push_contains(chosen(front, f), v.last(), e);
            assert(chosen(front, f).contains(e) <==> front.contains(e) && passes(e, f));
        }
        if passes(v.last(), f) {
            assert(c.drop_last() =~= chosen(front, f));
        }
    }
}

proof fn lemma_push_contains(v: Seq<Row>, x: Row, e: Row)
    ensures
        v.push(x).contains(e) <==> v.contains(e) || e == x,
{
    if v.contains(e) {
        let k = v.index_of(e);
        assert(v.push(x)[k] == e);
    }
    assert(v.push(x)[v.len() as int] == x);
    if v.push(x).contains(e) && e != x {
        let k = v.push(x).index_of(e);
        assert(v[k] == e);
    }
}

/// Whether a text stands somewhere in another.
pub open spec fn stands_in(part: Seq<char>, s: Seq<char>) -> bool {
    exists|a: Seq<char>, b: Seq<char>| #[trigger] (a + part + b) == s
}

proof fn lemma_stands_in(part: Seq<char>, s: Seq<char>)
    ensures
        text::occurs_in(part, s) <==> stands_in(part, s),
{
    text::law_occurs(part, s);
}

/// Conditions are joined: a logged query is shown exactly where it is among those
/// given and meets each condition that is given, whichever others are given. An
/// action that is asked for is its action, the text asked for in the domain stands in
/// its domain, and the text asked for in the source stands in its source.
pub proof fn law_conditions_joined(v: Seq<Row>, f: Filter, e: Row)
    ensures
        chosen(v, f).contains(e) ==> v.contains(e),
        chosen(v, f).contains(e) && f.blocked ==> e.action == "blocked"@,
        chosen(v, f).contains(e) && f.allowed ==> e.action == "allowed"@,
        chosen(v, f).contains(e) && f.forwarded ==> e.action == "forwarded"@,
        chosen(v, f).contains(e) && f.domain is Some ==> stands_in(f.domain->Some_0, e.domain),
        chosen(v, f).contains(e) && f.src is Some ==> stands_in(f.src->Some_0, e.source),
        v.contains(e) && !chosen(v, f).contains(e) ==> {
            ||| f.blocked && e.action != "blocked"@
            ||| f.allowed && e.action != "allowed"@
            ||| f.forwarded && e.action != "forwarded"@
            ||| f.domain is Some && !stands_in(f.domain->Some_0, e.domain)
            ||| f.src is Some && !stands_in(f.src->Some_0, e.source)
        },
{
    law_filter(v, f);
    if let Some(d) = f.domain {
        lemma_stands_in(d, e.domain);
    }
    if let Some(s) = f.src {
        lemma_stands_in(s, e.source);
    }
    assert(chosen(v, f).contains(e) <==> v.contains(e) && passes(e, f));
}

/// Choosing goes through the logged queries in order, each as often as it was
/// logged.
pub proof fn law_chosen_in_order(a: Seq<Row>, b: Seq<Row>, f: Filter)
    ensures
        chosen(a + b, f) == chosen(a, f) + chosen(b, f),
    decreases b.len(),
{
    if b.len() == 0 {
        assert(a + b =~= a);
    } else {
        law_chosen_in_order(a, b.drop_last(), f);
        assert((a + b).drop_last() =~= a + b.drop_last());
        assert((a + b).last() == b.last());
        assert(chosen(a + b, f) =~= chosen(a, f) + chosen(b, f));
    }
}

/// To ask for two conditions one behind the other is to ask for both at once, and
/// how the result is shown does not matter.
pub proof fn law_chosen_twice(v: Seq<Row>, f: Filter, g: Filter, both: Filter)
    requires
        g.domain is None && g.src is None,
        both.blocked == (f.blocked || g.blocked),
        both.allowed == (f.allowed || g.allowed),
        both.forwarded == (f.forwarded || g.forwarded),
        both.domain == f.domain,
        both.src == f.src,
    ensures
        chosen(chosen(v, f), g) == chosen(v, both),
    decreases v.len(),
{
    if v.len() > 0 {
        let front = v.drop_last();
        law_chosen_twice(front, f, g, both);
        if passes(v.last(), f) {
            assert(chosen(v, f).drop_last() =~= chosen(front, f));
            assert(chosen(v, f).last() == v.last());
        }
    }
}

/// Journal entries give logged queries in order, one at most each.
pub proof fn law_entries_in_order(a: Seq<JournalEntry>, b: Seq<JournalEntry>)
    ensures
        entry_rows(a + b) == entry_rows(a) + entry_rows(b),
    decreases b.len(),
{
    if b.len() == 0 {
        assert(a + b =~= a);
    } else {
        law_entries_in_order(a, b.drop_last());
        assert((a + b).drop_last() =~= a + b.drop_last());
        assert((a + b).last() == b.last());
        assert(entry_rows(a + b) =~= entry_rows(a) + entry_rows(b));
    }
}

/// A journal entry with an action or a domain is a logged query that holds what the
/// entry holds, each field in its place and empty where the entry has none; one with
/// neither is passed over.
pub proof fn law_entry(e: JournalEntry)
    ensures
        e.action is None && e.domain is None ==> entry_rows(seq![e]).len() == 0,
        e.action is Some || e.domain is Some ==> {
            let r = entry_rows(seq![e]);
            &&& r.len() == 1
            &&& e.source is Some ==> r[0].source == e.source->Some_0@
            &&& e.domain is Some ==> r[0].domain == e.domain->Some_0@
            &&& e.qtype is Some ==> r[0].qtype == e.qtype->Some_0@
            &&& e.action is Some ==> r[0].action == e.action->Some_0@
            &&& e.rule is Some ==> r[0].rule == e.rule->Some_0@
            &&& e.source is None ==> r[0].source.len() == 0
            &&& e.domain is None ==> r[0].domain.len() == 0
            &&& e.qtype is None ==> r[0].qtype.len() == 0
            &&& e.action is None ==> r[0].action.len() == 0
            &&& e.rule is None ==> r[0].rule.len() == 0
            &&& e.timestamp is None ==> r[0].timestamp.len() == 0
            &&& e.timestamp is Some ==> r[0].timestamp == timestamp_text(
                Some(e.timestamp->Some_0@),
            )
        },
{
    reveal_with_fuel(entry_rows, 2);
    assert(seq![e].drop_last() =~= Seq::empty());
}

/// The lines of a journal are read in order, and one is passed over exactly where it
/// holds nothing but white space.
pub proof fn law_written_lines(a: Seq<Seq<char>>, line: Seq<char>, b: Seq<Seq<char>>)
    ensures
        text::all_white(line) ==> written_lines(a.push(line) + b) == written_lines(a)
            + written_lines(b),
        !text::all_white(line) ==> written_lines(a.push(line) + b) == written_lines(a).push(line)
            + written_lines(b),
    decreases b.len(),
{
    if b.len() == 0 {
        assert(a.push(line) + b =~= a.push(line));
        assert(a.push(line).drop_last() =~= a);
        let none = Seq::<char>::empty();
        if text::all_white(line) {
            text::law_trimmed(line, none, none);
            assert(line + none + none =~= line);
        } else {
            let (before, behind) = text::lemma_trimmed_parts(line);
            if text::trimmed(line).len() == 0 {
                assert(line =~= before + behind);
                assert forall|i: int| 0 <= i < line.len() implies text::is_white(
                    #[trigger] line[i],
                ) by {
                    if i < before.len() {
                        assert(line[i] == before[i]);
                    } else {
                        assert(line[i] == behind[i - before.len()]);
                    }
                }
            }
        }
        assert(written_lines(a) + written_lines(b) =~= written_lines(a));
        assert(written_lines(a).push(line) + written_lines(b) =~= written_lines(a).push(line));
    } else {
        let front = b.drop_last();
        law_written_lines(a, line, front);
        let whole = a.push(line) + b;
        assert(whole.drop_last() =~= a.push(line) + front);
        assert(whole.last() == b.last());
        assert(written_lines(a).push(line) + written_lines(b) =~= if text::trimmed(
            b.last(),
        ).len() == 0 {
            written_lines(a).push(line) + written_lines(front)
        } else {
            (written_lines(a).push(line) + written_lines(front)).push(b.last())
        });
        assert(written_lines(a) + written_lines(b) =~= if text::trimmed(b.last()).len() == 0 {
            written_lines(a) + written_lines(front)
        } else {
            (written_lines(a) + written_lines(front)).push(b.last())
        });
    }
}

/// A moment of a day is written as the year in four digits, the month and the day in
/// two each, and the hour, the minute and the second in two each.
pub proof fn law_time_text(y: int, m: int, d: int, hour: int, minute: int, second: int)
    requires
        calendar::valid_date(y, m, d),
        0 <= hour < 24,
        0 <= minute < 60,
        0 <= second < 60,
    ensures
        time_text(
            calendar::day_number(y, m, d) * 86400 + hour * 3600 + minute * 60 + second,
        ) == number::zero_padded(number::decimal(y), 4) + "-"@ + number::zero_padded(
            number::decimal(m),
            2,
        ) + "-"@ + number::zero_padded(number::decimal(d), 2) + " "@ + number::zero_padded(
            number::decimal(hour),
            2,
        ) + ":"@ + number::zero_padded(number::decimal(minute), 2) + ":"@ + number::zero_padded(
            number::decimal(second),
            2,
        ),
{
    let n = calendar::day_number(y, m, d);
    let rest = hour * 3600 + minute * 60 + second;
    let secs = n * 86400 + rest;
    calendar::law_date_of(y, m, d);
    assert(0 <= rest < 86400);
    assert(secs / 86400 == n && secs % 86400 == rest);
    assert(rest / 3600 == hour);
    assert(rest % 3600 / 60 == minute);
    assert(rest % 60 == second);
}

/// A timestamp counts microseconds: what is below a second does not show. One that is
/// zero, no number, or not there is shown as nothing.
pub proof fn law_timestamp(secs: u64, micros: u64, s: Seq<char>)
    requires
        micros < 1_000_000,
        0 < secs * 1_000_000 + micros <= u64::MAX,
    ensures
        timestamp_text(Some(number::decimal(secs * 1_000_000 + micros))) == time_text(secs as int),
        timestamp_text(None).len() == 0,
        timestamp_text(Some(number::decimal(0))).len() == 0,
        number::written_u64(s) is None ==> timestamp_text(Some(s)).len() == 0,
{
    let n = (secs * 1_000_000 + micros) as u64;
    number::law_decimal_round_trip(n);
    number::law_decimal_round_trip(0);
    assert(n / 1_000_000 == secs);
}

/// Logged queries and conditions stand for their parts.
pub proof fn law_parts(v: Seq<QueryEntry>, i: int, f: StatsFilter)
    requires
        0 <= i < v.len(),
    ensures
        rows(v).len() == v.len(),
        rows(v)[i].timestamp == v[i].timestamp@,
        rows(v)[i].source == v[i].source@,
        rows(v)[i].domain == v[i].domain@,
        rows(v)[i].qtype == v[i].qtype@,
        rows(v)[i].action == v[i].action@,
        rows(v)[i].rule == v[i].rule@,
        f@.blocked == f.blocked && f@.allowed == f.allowed && f@.forwarded == f.forwarded,
        f@.summary == f.summary,
        f.domain is Some ==> f@.domain == Some(f.domain->Some_0@),
        f.domain is None ==> f@.domain is None,
        f.src is Some ==> f@.src == Some(f.src->Some_0@),
        f.src is None ==> f@.src is None,
        f.since is Some ==> f@.since == Some(f.since->Some_0@),
        f.since is None ==> f@.since is None,
{
}

} // verus!
