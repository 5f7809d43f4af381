//! Logged queries laid out for people: a table, or a summary.
use vstd::prelude::*;
use vstd::hash_map::StringHashMap;
use crate::number;
use crate::stats;
use crate::stats::{QueryEntry, Row};
use crate::text;

verus! {

/// How many domains and sources a summary ranks.
pub const TOP: usize = 10;

/// A text with spaces put behind it until it has `width` characters.
pub open spec fn padded(s: Seq<char>, width: int) -> Seq<char> {
    if s.len() < width {
        s + Seq::new((width - s.len()) as nat, |i: int| ' ')
    } else {
        s
    }
}

/// Appends a text and spaces behind it until it has `width` characters.
fn push_padded(out: &mut String, s: &str, width: usize)
    ensures
        final(out)@ == old(out)@ + padded(s@, width as int),
{
    let ghost start = out@;
    let len: usize = text::chars_of(s).len();
    out.append(s);
    if len < width {
        let missing: usize = width - len;
        assert(out@ =~= start + s@ + Seq::new(0, |k: int| ' '));
        for i in 0..missing
            invariant
                out@ == start + s@ + Seq::new(i as nat, |k: int| ' '),
        {
            out.push(' ');
            assert(out@ =~= start + s@ + Seq::new((i + 1) as nat, |k: int| ' '));
        }
        assert(out@ =~= start + padded(s@, width as int));
    }
}

// ---------------------------------------------------------------------------
// The table
// ---------------------------------------------------------------------------

/// The line of a table for a logged query.
pub open spec fn table_line(e: Row) -> Seq<char> {
    padded(e.timestamp, 20) + " "@ + padded(e.source, 15) + " "@ + padded(e.qtype, 6) + " "@
        + padded(e.action, 10) + " "@ + padded(e.domain, 32) + " "@ + e.rule
}

/// The heading of a table.
pub open spec fn table_heading() -> Seq<char> {
    "TIMESTAMP             SOURCE          TYPE   ACTION     DOMAIN                              RULE"@
}

/// The rule under the heading of a table.
pub open spec fn table_rule() -> Seq<char> {
    Seq::new(100, |i: int| '-')
}

/// The lines of a table of logged queries.
pub open spec fn table(v: Seq<Row>) -> Seq<Seq<char>> {
    if v.len() == 0 {
        seq!["No matching entries."@]
    } else {
        seq![table_heading(), table_rule()] + v.map_values(|e: Row| table_line(e))
    }
}

/// The line of a table for a logged query.
fn entry_line(e: &QueryEntry) -> (r: String)
    ensures
        r@ == table_line(e@),
{
    let mut line = String::new();
    push_padded(&mut line, e.timestamp.as_str(), 20);
    line.append(" ");
    push_padded(&mut line, e.source.as_str(), 15);
    line.append(" ");
    push_padded(&mut line, e.qtype.as_str(), 6);
    line.append(" ");
    push_padded(&mut line, e.action.as_str(), 10);
    line.append(" ");
    push_padded(&mut line, e.domain.as_str(), 32);
    line.append(" ");
    line.append(e.rule.as_str());
    assert(line@ =~= table_line(e@));
    line
}

/// Appends a line.
fn push_line(out: &mut Vec<String>, line: String)
    ensures
        text::texts(final(out)@) == text::texts(old(out)@).push(line@),
{
    let ghost before = out@;
    let ghost l = line@;
    out.push(line);
    assert(text::texts(out@) =~= text::texts(before).push(l));
}

/// The rule under the heading of a table.
fn dashes() -> (r: String)
    ensures
        r@ == table_rule(),
{
    let mut s = String::new();
    for i in 0..100usize
        invariant
            s@ == Seq::new(i as nat, |k: int| '-'),
    {
        s.push('-');
        assert(s@ =~= Seq::new((i + 1) as nat, |k: int| '-'));
    }
    s
}

/// The lines of a table of logged queries.
pub fn print_entries(entries: &[QueryEntry]) -> (r: Vec<String>)
    ensures
        text::texts(r@) == table(stats::rows(entries@)),
{
    let ghost all = stats::rows(entries@);
    let mut out: Vec<String> = Vec::new();
    assert(text::texts(out@) =~= Seq::empty());
    if entries.is_empty() {
        push_line(&mut out, "No matching entries.".to_owned());
        assert(text::texts(out@) =~= table(all));
        return out;
    }
    push_line(
        &mut out,
        "TIMESTAMP             SOURCE          TYPE   ACTION     DOMAIN                              RULE".to_owned(),
    );
    push_line(&mut out, dashes());
    let ghost head = seq![table_heading(), table_rule()];
    let ghost lines = all.map_values(|e: Row| table_line(e));
    assert(text::texts(out@) =~= head + lines.take(0));
    for i in 0..entries.len()
        invariant
            all == stats::rows(entries@),
            lines == all.map_values(|e: Row| table_line(e)),
            text::texts(out@) == head + lines.take(i as int),
    {
        push_line(&mut out, entry_line(&entries[i]));
        assert(head + lines.take(i + 1) =~= (head + lines.take(i as int)).push(
            table_line(entries@[i as int]@),
        ));
    }
    assert(lines.take(lines.len() as int) =~= lines);
    out
}

// ---------------------------------------------------------------------------
// Counting
// ---------------------------------------------------------------------------

/// A key and how often it occurred.
#[derive(Debug, PartialEq, Eq)]
pub struct Count {
    pub key: String,
    pub count: usize,
}

/// Views of counts.
pub open spec fn counts(v: Seq<Count>) -> Seq<(Seq<char>, int)> {
    v.map_values(|c: Count| (c.key@, c.count as int))
}

/// The place of a key, or the number of keys where it is not there.
pub open spec fn place(t: Seq<(Seq<char>, int)>, key: Seq<char>) -> int
    decreases t.len(),
{
    if t.len() == 0 || t[0].0 == key {
        0
    } else {
        1 + place(t.drop_first(), key)
    }
}

/// Counts with one more occurrence of a key.
pub open spec fn bumped(t: Seq<(Seq<char>, int)>, key: Seq<char>) -> Seq<(Seq<char>, int)> {
    let i = place(t, key);
    if i < t.len() {
        t.update(i, (key, t[i].1 + 1))
    } else {
        t.push((key, 1))
    }
}

/// How often each key occurs, the keys in the order of their first occurrence.
pub open spec fn tally(keys: Seq<Seq<char>>) -> Seq<(Seq<char>, int)>
    decreases keys.len(),
{
    if keys.len() == 0 {
        Seq::empty()
    } else {
        bumped(tally(keys.drop_last()), keys.last())
    }
}

proof fn lemma_place(t: Seq<(Seq<char>, int)>, key: Seq<char>, n: int)
    requires
        0 <= n <= t.len(),
        forall|j: int| 0 <= j < n ==> (#[trigger] t[j]).0 != key,
        n == t.len() || t[n].0 == key,
    ensures
        place(t, key) == n,
    decreases t.len(),
{
    if n > 0 {
        assert(t[0].0 != key);
        assert forall|j: int| 0 <= j < n - 1 implies (#[trigger] t.drop_first()[j]).0 != key by {
            assert(t.drop_first()[j] == t[j + 1]);
        }
        lemma_place(t.drop_first(), key, n - 1);
    }
}

/// Whether `index` gives the place of every key that is counted, and no other.
spec fn indexed(index: Map<Seq<char>, usize>, t: Seq<(Seq<char>, int)>) -> bool {
    forall|key: Seq<char>|
        {
            &&& #[trigger] index.contains_key(key) <==> place(t, key) < t.len()
            &&& index.contains_key(key) ==> index[key] == place(t, key)
        }
}

proof fn lemma_bumped_place(t: Seq<(Seq<char>, int)>, key: Seq<char>, other: Seq<char>)
    ensures
        place(bumped(t, key), other) == if other == key || place(t, other) < t.len() {
            place(t, other)
        } else {
            bumped(t, key).len() as int
        },
{
    let b = bumped(t, key);
    let o = place(t, other);
    lemma_place_bounds(t, key);
    lemma_place_bounds(t, other);
    assert forall|j: int| 0 <= j < o implies (#[trigger] b[j]).0 != other by {
        assert(t[j].0 != other);
    }
    if o < t.len() || other == key {
        lemma_place(b, other, o);
    } else {
        lemma_place(b, other, b.len() as int);
    }
}

/// Counts one more occurrence of a key. No count is above `bound` before.
fn bump(t: &mut Vec<Count>, index: &mut StringHashMap<usize>, key: &str, bound: usize)
    requires
        bound < usize::MAX,
        forall|i: int| 0 <= i < old(t)@.len() ==> (#[trigger] old(t)@[i]).count <= bound,
        indexed(old(index)@, counts(old(t)@)),
    ensures
        counts(final(t)@) == bumped(counts(old(t)@), key@),
        forall|i: int| 0 <= i < final(t)@.len() ==> (#[trigger] final(t)@[i]).count <= bound + 1,
        indexed(final(index)@, counts(final(t)@)),
{
    let ghost before = counts(t@);
    let ghost places = index@;
    let found: Option<usize> = match index.get(key) {
        Some(i) => Some(*i),
        None => None,
    };
    proof {
        lemma_place_bounds(before, key@);
        assert(places.contains_key(key@) <==> place(before, key@) < before.len());
    }
    match found {
        Some(i) => {
            assert(i == place(before, key@));
            assert(before[i as int] == (t@[i as int].key@, t@[i as int].count as int));
            let n: usize = t[i].count;
            t[i].count = n + 1;
            assert(counts(t@) =~= before.update(i as int, (key@, n + 1)));
        },
        None => {
            let n: usize = t.len();
            index.insert(key.to_owned(), n);
            t.push(Count { key: key.to_owned(), count: 1 });
            assert(counts(t@) =~= before.push((key@, 1)));
        },
    }
    proof {
        let after = counts(t@);
        assert(after == bumped(before, key@));
        assert forall|k: Seq<char>|
            {
                &&& #[trigger] index@.contains_key(k) <==> place(after, k) < after.len()
                &&& index@.contains_key(k) ==> index@[k] == place(after, k)
            } by {
            lemma_bumped_place(before, key@, k);
            lemma_place_bounds(before, k);
            assert(places.contains_key(k) <==> place(before, k) < before.len());
        }
    }
}

/// How often each key occurs, the keys in the order of their first occurrence.
pub fn count_keys(keys: &[&str]) -> (r: Vec<Count>)
    ensures
        counts(r@) == tally(key_views(keys@)),
{
    let ghost all = key_views(keys@);
    let mut t: Vec<Count> = Vec::new();
    let mut index: StringHashMap<usize> = StringHashMap::new();
    assert(counts(t@) =~= Seq::empty());
    for i in 0..keys.len()
        invariant
            all == key_views(keys@),
            counts(t@) == tally(all.take(i as int)),
            forall|j: int| 0 <= j < t@.len() ==> (#[trigger] t@[j]).count <= i,
            indexed(index@, counts(t@)),
    {
        bump(&mut t, &mut index, keys[i], i);
        assert(all.take(i + 1).drop_last() =~= all.take(i as int));
    }
    assert(all.take(all.len() as int) =~= all);
    t
}

/// Views of keys.
pub open spec fn key_views(keys: Seq<&str>) -> Seq<Seq<char>> {
    keys.map_values(|k: &str| k@)
}

// ---------------------------------------------------------------------------
// Ranking
// ---------------------------------------------------------------------------

/// How many of the first counts are at least `n`.
pub open spec fn rank_of(t: Seq<(Seq<char>, int)>, n: int) -> int
    decreases t.len(),
{
    if t.len() == 0 || t[0].1 < n {
        0
    } else {
        1 + rank_of(t.drop_first(), n)
    }
}

/// Counts from the highest to the lowest; equal ones keep their order.
pub open spec fn ranked(t: Seq<(Seq<char>, int)>) -> Seq<(Seq<char>, int)>
    decreases t.len(),
{
    if t.len() == 0 {
        Seq::empty()
    } else {
        let front = ranked(t.drop_last());
        front.insert(rank_of(front, t.last().1), t.last())
    }
}

proof fn lemma_rank(t: Seq<(Seq<char>, int)>, n: int, i: int)
    requires
        0 <= i <= t.len(),
        forall|j: int| 0 <= j < i ==> (#[trigger] t[j]).1 >= n,
        i == t.len() || t[i].1 < n,
    ensures
        rank_of(t, n) == i,
    decreases t.len(),
{
    if i > 0 {
        assert(t[0].1 >= n);
        assert forall|j: int| 0 <= j < i - 1 implies (#[trigger] t.drop_first()[j]).1 >= n by {
            assert(t.drop_first()[j] == t[j + 1]);
        }
        lemma_rank(t.drop_first(), n, i - 1);
    }
}

/// Counts from the highest to the lowest; equal ones keep their order.
pub fn rank(t: Vec<Count>) -> (r: Vec<Count>)
    ensures
        counts(r@) == ranked(counts(t@)),
{
    let ghost all = counts(t@);
    let mut out: Vec<Count> = Vec::new();
    assert(counts(out@) =~= Seq::empty());
    for i in 0..t.len()
        invariant
            all == counts(t@),
            counts(out@) == ranked(all.take(i as int)),
    {
        let n: usize = t[i].count;
        let mut at: usize = 0;
        let ghost front = counts(out@);
        while at < out.len() && out[at].count >= n
            invariant
                at <= out@.len(),
                front == counts(out@),
                forall|j: int| 0 <= j < at ==> (#[trigger] front[j]).1 >= n,
            decreases out@.len() - at,
        {
            assert(front[at as int].1 == out@[at as int].count);
            at = at + 1;
        }
        proof {
            if at < out@.len() {
                assert(front[at as int].1 == out@[at as int].count);
            }
            lemma_rank(front, n as int, at as int);
            assert(all.take(i + 1).drop_last() =~= all.take(i as int));
            assert(all[i as int] == (t@[i as int].key@, t@[i as int].count as int));
        }
        let c = Count { key: t[i].key.clone(), count: n };
        out.insert(at, c);
        assert(counts(out@) =~= front.insert(at as int, all[i as int]));
    }
    assert(all.take(all.len() as int) =~= all);
    out
}

// ---------------------------------------------------------------------------
// The summary
// ---------------------------------------------------------------------------

/// The actions of logged queries.
pub open spec fn actions(v: Seq<Row>) -> Seq<Seq<char>> {
    v.map_values(|e: Row| e.action)
}

/// The sources of logged queries.
pub open spec fn query_sources(v: Seq<Row>) -> Seq<Seq<char>> {
    v.map_values(|e: Row| e.source)
}

/// The domains of the logged queries that were blocked.
pub open spec fn blocked_domains(v: Seq<Row>) -> Seq<Seq<char>>
    decreases v.len(),
{
    if v.len() == 0 {
        Seq::empty()
    } else if v.last().action == "blocked"@ {
        blocked_domains(v.drop_last()).push(v.last().domain)
    } else {
        blocked_domains(v.drop_last())
    }
}

/// The line of a summary for a count of actions.
pub open spec fn action_line(c: (Seq<char>, int)) -> Seq<char> {
    "  "@ + padded(c.0, 12) + " "@ + number::decimal(c.1)
}

/// The line of a summary for the count at place `i` of a ranking.
pub open spec fn ranking_line(i: int, c: (Seq<char>, int)) -> Seq<char> {
    "  "@ + padded(number::decimal(i + 1), 2) + ". "@ + padded(c.0, 40) + " "@ + number::decimal(
        c.1,
    )
}

/// The first counts of a ranking.
pub open spec fn top(t: Seq<(Seq<char>, int)>) -> Seq<(Seq<char>, int)> {
    if ranked(t).len() < TOP {
        ranked(t)
    } else {
        ranked(t).take(TOP as int)
    }
}

/// The lines of a ranking.
pub open spec fn ranking_lines(t: Seq<(Seq<char>, int)>) -> Seq<Seq<char>> {
    Seq::new(t.len(), |i: int| ranking_line(i, t[i]))
}

/// The lines of a summary of logged queries: how many there are, how many there
/// are of each action, and which domains were blocked and which sources asked
/// most often.
pub open spec fn summary(v: Seq<Row>) -> Seq<Seq<char>> {
    if v.len() == 0 {
        seq!["No matching entries."@]
    } else {
        seq!["Total queries: "@ + number::decimal(v.len() as int), Seq::empty(), "By action:"@]
            + tally(actions(v)).map_values(|c: (Seq<char>, int)| action_line(c)) + seq![
            Seq::empty(),
            "Top 10 blocked domains:"@,
        ] + ranking_lines(top(tally(blocked_domains(v)))) + seq![
            Seq::empty(),
            "Top 10 sources:"@,
        ] + ranking_lines(top(tally(query_sources(v))))
    }
}

/// The domains of the logged queries that were blocked.
fn take_blocked<'a>(entries: &'a [QueryEntry]) -> (r: Vec<&'a str>)
    ensures
        key_views(r@) == blocked_domains(stats::rows(entries@)),
{
    let ghost all = stats::rows(entries@);
    let mut out: Vec<&'a str> = Vec::new();
    assert(key_views(out@) =~= Seq::empty());
    for i in 0..entries.len()
        invariant
            all == stats::rows(entries@),
            key_views(out@) == blocked_domains(all.take(i as int)),
    {
        assert(all.take(i + 1).drop_last() =~= all.take(i as int));
        assert(all[i as int] == entries@[i as int]@);
        if text::same_text(entries[i].action.as_str(), "blocked") {
            let ghost before = out@;
            out.push(entries[i].domain.as_str());
            assert(key_views(out@) =~= key_views(before).push(all[i as int].domain));
        }
    }
    assert(all.take(all.len() as int) =~= all);
    out
}

/// The actions and the sources of logged queries.
fn take_keys<'a>(entries: &'a [QueryEntry]) -> (r: (Vec<&'a str>, Vec<&'a str>))
    ensures
        key_views(r.0@) == actions(stats::rows(entries@)),
        key_views(r.1@) == query_sources(stats::rows(entries@)),
{
    let ghost all = stats::rows(entries@);
    let mut done: Vec<&'a str> = Vec::new();
    let mut from: Vec<&'a str> = Vec::new();
    assert(key_views(done@) =~= actions(all).take(0));
    assert(key_views(from@) =~= query_sources(all).take(0));
    for i in 0..entries.len()
        invariant
            all == stats::rows(entries@),
            key_views(done@) == actions(all).take(i as int),
            key_views(from@) == query_sources(all).take(i as int),
    {
        assert(all[i as int] == entries@[i as int]@);
        let ghost before = (done@, from@);
        done.push(entries[i].action.as_str());
        from.push(entries[i].source.as_str());
        assert(key_views(done@) =~= key_views(before.0).push(actions(all)[i as int]));
        assert(key_views(from@) =~= key_views(before.1).push(query_sources(all)[i as int]));
        assert(actions(all).take(i + 1) =~= actions(all).take(i as int).push(
            actions(all)[i as int],
        ));
        assert(query_sources(all).take(i + 1) =~= query_sources(all).take(i as int).push(
            query_sources(all)[i as int],
        ));
    }
    assert(actions(all).take(all.len() as int) =~= actions(all));
    assert(query_sources(all).take(all.len() as int) =~= query_sources(all));
    (done, from)
}

/// Appends the lines of a ranking: its first counts.
fn push_ranking(out: &mut Vec<String>, t: Vec<Count>)
    ensures
        text::texts(final(out)@) == text::texts(old(out)@) + ranking_lines(top(counts(t@))),
{
    let ghost start = text::texts(out@);
    let ghost best = top(counts(t@));
    let r = rank(t);
    let n: usize = if r.len() < TOP {
        r.len()
    } else {
        TOP
    };
    assert(best.len() == n);
    assert(forall|i: int| 0 <= i < n ==> #[trigger] best[i] == counts(r@)[i]);
    assert(start + ranking_lines(best).take(0) =~= start);
    for i in 0..n
        invariant
            n <= r@.len(),
            n == best.len(),
            forall|k: int| 0 <= k < n ==> #[trigger] best[k] == counts(r@)[k],
            text::texts(out@) == start + ranking_lines(best).take(i as int),
    {
        let mut line = "  ".to_owned();
        push_padded(&mut line, number::to_decimal(i as u64 + 1).as_str(), 2);
        line.append(". ");
        push_padded(&mut line, r[i].key.as_str(), 40);
        line.append(" ");
        line.append(number::to_decimal(r[i].count as u64).as_str());
        assert(best[i as int] == (r@[i as int].key@, r@[i as int].count as int));
        assert(line@ =~= ranking_line(i as int, best[i as int]));
        push_line(out, line);
        assert(ranking_lines(best).take(i + 1) =~= ranking_lines(best).take(i as int).push(
            ranking_line(i as int, best[i as int]),
        ));
        assert(text::texts(out@) =~= start + ranking_lines(best).take(i + 1));
    }
    assert(ranking_lines(best).take(n as int) =~= ranking_lines(best));
}

/// Appends the lines for counts of actions.
fn push_actions(out: &mut Vec<String>, t: Vec<Count>)
    ensures
        text::texts(final(out)@) == text::texts(old(out)@) + counts(t@).map_values(
            |c: (Seq<char>, int)| action_line(c),
        ),
{
    let ghost start = text::texts(out@);
    let ghost lines = counts(t@).map_values(|c: (Seq<char>, int)| action_line(c));
    assert(start + lines.take(0) =~= start);
    for i in 0..t.len()
        invariant
            lines == counts(t@).map_values(|c: (Seq<char>, int)| action_line(c)),
            text::texts(out@) == start + lines.take(i as int),
    {
        let mut line = "  ".to_owned();
        push_padded(&mut line, t[i].key.as_str(), 12);
        line.append(" ");
        line.append(number::to_decimal(t[i].count as u64).as_str());
        assert(counts(t@)[i as int] == (t@[i as int].key@, t@[i as int].count as int));
        assert(line@ =~= lines[i as int]);
        push_line(out, line);
        assert(lines.take(i + 1) =~= lines.take(i as int).push(lines[i as int]));
        assert(text::texts(out@) =~= start + lines.take(i + 1));
    }
    assert(lines.take(lines.len() as int) =~= lines);
}

/// The lines of a summary of logged queries.
pub fn print_summary(entries: &[QueryEntry]) -> (r: Vec<String>)
    ensures
        text::texts(r@) == summary(stats::rows(entries@)),
{
    let ghost all = stats::rows(entries@);
    let mut out: Vec<String> = Vec::new();
    assert(text::texts(out@) =~= Seq::empty());
    if entries.is_empty() {
        push_line(&mut out, "No matching entries.".to_owned());
        assert(text::texts(out@) =~= summary(all));
        return out;
    }
    let (done, from) = take_keys(entries);
    let blocked = take_blocked(entries);
    let mut total = "Total queries: ".to_owned();
    total.append(number::to_decimal(entries.len() as u64).as_str());
    push_line(&mut out, total);
    push_line(&mut out, String::new());
    push_line(&mut out, "By action:".to_owned());
    assert(text::texts(out@) =~= seq![
        "Total queries: "@ + number::decimal(all.len() as int),
        Seq::empty(),
        "By action:"@,
    ]);
    push_actions(&mut out, count_keys(&done));
    push_line(&mut out, String::new());
    push_line(&mut out, "Top 10 blocked domains:".to_owned());
    push_ranking(&mut out, count_keys(&blocked));
    push_line(&mut out, String::new());
    push_line(&mut out, "Top 10 sources:".to_owned());
    push_ranking(&mut out, count_keys(&from));
    assert(text::texts(out@) =~= summary(all));
    out
}

// ---------------------------------------------------------------------------
// What counting and ranking promise
// ---------------------------------------------------------------------------

/// How often a key occurs.
pub open spec fn occurrences(keys: Seq<Seq<char>>, key: Seq<char>) -> int
    decreases keys.len(),
{
    if keys.len() == 0 {
        0
    } else {
        occurrences(keys.drop_last(), key) + if keys.last() == key {
            1int
        } else {
            0
        }
    }
}

/// The count of a key, or zero where it is not counted.
pub open spec fn count_of(t: Seq<(Seq<char>, int)>, key: Seq<char>) -> int {
    let i = place(t, key);
    if i < t.len() {
        t[i].1
    } else {
        0
    }
}

proof fn lemma_place_bounds(t: Seq<(Seq<char>, int)>, key: Seq<char>)
    ensures
        0 <= place(t, key) <= t.len(),
        place(t, key) < t.len() ==> t[place(t, key)].0 == key,
        forall|j: int| 0 <= j < place(t, key) ==> (#[trigger] t[j]).0 != key,
    decreases t.len(),
{
    if t.len() > 0 && t[0].0 != key {
        lemma_place_bounds(t.drop_first(), key);
        assert forall|j: int| 0 <= j < place(t, key) implies (#[trigger] t[j]).0 != key by {
            if j > 0 {
                assert(t[j] == t.drop_first()[j - 1]);
            }
        }
    }
}

proof fn lemma_bumped(t: Seq<(Seq<char>, int)>, key: Seq<char>, other: Seq<char>)
    ensures
        count_of(bumped(t, key), other) == count_of(t, other) + if other == key {
            1int
        } else {
            0
        },
{
    lemma_place_bounds(t, key);
    lemma_place_bounds(t, other);
    lemma_bumped_place(t, key, other);
}

/// Each key is counted as often as it occurs.
pub proof fn law_tally_counts(keys: Seq<Seq<char>>, key: Seq<char>)
    ensures
        count_of(tally(keys), key) == occurrences(keys, key),
    decreases keys.len(),
{
    if keys.len() > 0 {
        law_tally_counts(keys.drop_last(), key);
        lemma_bumped(tally(keys.drop_last()), keys.last(), key);
    }
}

/// Counts from the highest to the lowest.
pub open spec fn descending(t: Seq<(Seq<char>, int)>) -> bool {
    forall|i: int, j: int| 0 <= i <= j < t.len() ==> (#[trigger] t[i]).1 >= (#[trigger] t[j]).1
}

proof fn lemma_rank_bounds(t: Seq<(Seq<char>, int)>, n: int)
    requires
        descending(t),
    ensures
        0 <= rank_of(t, n) <= t.len(),
        forall|j: int| 0 <= j < rank_of(t, n) ==> (#[trigger] t[j]).1 >= n,
        forall|j: int| rank_of(t, n) <= j < t.len() ==> (#[trigger] t[j]).1 < n,
    decreases t.len(),
{
    if t.len() > 0 && t[0].1 >= n {
        let rest = t.drop_first();
        assert forall|i: int, j: int| 0 <= i <= j < rest.len() implies (#[trigger] rest[i]).1 >= (
        #[trigger] rest[j]).1 by {
            assert(rest[i] == t[i + 1]);
            assert(rest[j] == t[j + 1]);
        }
        lemma_rank_bounds(rest, n);
        assert forall|j: int| 0 <= j < rank_of(t, n) implies (#[trigger] t[j]).1 >= n by {
            if j > 0 {
                assert(t[j] == rest[j - 1]);
            }
        }
        assert forall|j: int| rank_of(t, n) <= j < t.len() implies (#[trigger] t[j]).1 < n by {
            assert(t[j] == rest[j - 1]);
        }
    }
}

/// A ranking holds exactly the counts that were ranked, from the highest to the
/// lowest.
pub proof fn law_ranking(t: Seq<(Seq<char>, int)>)
    ensures
        descending(ranked(t)),
        ranked(t).to_multiset() == t.to_multiset(),
    decreases t.len(),
{
    broadcast use vstd::seq_lib::group_to_multiset_ensures;

    if t.len() > 0 {
        law_ranking(t.drop_last());
        let front = ranked(t.drop_last());
        let x = t.last();
        lemma_rank_bounds(front, x.1);
        let r = front.insert(rank_of(front, x.1), x);
        assert forall|i: int, j: int| 0 <= i <= j < r.len() implies (#[trigger] r[i]).1 >= (
        #[trigger] r[j]).1 by {
            let k = rank_of(front, x.1);
            if i < k {
                assert(r[i] == front[i]);
            } else if i > k {
                assert(r[i] == front[i - 1]);
            }
            if j < k {
                assert(r[j] == front[j]);
            } else if j > k {
                assert(r[j] == front[j - 1]);
            }
        }
        assert(t =~= t.drop_last().push(x));
        lemma_insert_multiset(front, rank_of(front, x.1), x);
    } else {
        assert(ranked(t) =~= t);
    }
}

proof fn lemma_insert_multiset(t: Seq<(Seq<char>, int)>, i: int, x: (Seq<char>, int))
    requires
        0 <= i <= t.len(),
    ensures
        t.insert(i, x).to_multiset() == t.to_multiset().insert(x),
{
    broadcast use vstd::seq_lib::group_to_multiset_ensures;

    assert(t.insert(i, x) =~= t.take(i).push(x) + t.skip(i));
    vstd::seq_lib::lemma_multiset_commutative(t.take(i).push(x), t.skip(i));
    vstd::seq_lib::lemma_multiset_commutative(t.take(i), t.skip(i));
    assert(t =~= t.take(i) + t.skip(i));
    assert(t.insert(i, x).to_multiset() =~= t.to_multiset().insert(x));
}

/// A text is followed by spaces until it is as wide as asked, and one that is as wide
/// stays as it is.
pub proof fn law_padded(s: Seq<char>, width: int)
    requires
        0 <= width,
    ensures
        s.len() <= width ==> padded(s, width).len() == width,
        s.len() >= width ==> padded(s, width) == s,
        padded(s, width).take(s.len() as int) == s,
        forall|i: int| s.len() <= i < width ==> #[trigger] padded(s, width)[i] == ' ',
{
    assert(padded(s, width).take(s.len() as int) =~= s);
}

/// A table has its heading, a rule, and one line for each logged query, in order; one
/// without queries says so.
pub proof fn law_table(v: Seq<Row>, i: int)
    requires
        0 <= i < v.len(),
    ensures
        table(v).len() == v.len() + 2,
        table(v)[i + 2] == table_line(v[i]),
        table(v)[0]
            == "TIMESTAMP             SOURCE          TYPE   ACTION     DOMAIN                              RULE"@,
        table(v)[1].len() == 100,
        forall|k: int| 0 <= k < 100 ==> #[trigger] table(v)[1][k] == '-',
        table(Seq::empty()) == seq!["No matching entries."@],
{
}

/// Where each field of a logged query stands in its line of a table, where it is no
/// wider than its column: the time from the first column, the source from column 21,
/// the type from 37, the action from 44, the domain from 55 and the rule from 88,
/// counted from zero.
pub proof fn law_table_line(e: Row)
    requires
        e.timestamp.len() <= 20,
        e.source.len() <= 15,
        e.qtype.len() <= 6,
        e.action.len() <= 10,
        e.domain.len() <= 32,
    ensures
        table_line(e).len() == 88 + e.rule.len(),
        table_line(e).take(e.timestamp.len() as int) == e.timestamp,
        table_line(e).subrange(21, 21int + e.source.len()) == e.source,
        table_line(e).subrange(37, 37int + e.qtype.len()) == e.qtype,
        table_line(e).subrange(44, 44int + e.action.len()) == e.action,
        table_line(e).subrange(55, 55int + e.domain.len()) == e.domain,
        table_line(e).skip(88) == e.rule,
{
    reveal_strlit(" ");
    let a = padded(e.timestamp, 20) + " "@;
    let b = a + padded(e.source, 15) + " "@;
    let c = b + padded(e.qtype, 6) + " "@;
    let d = c + padded(e.action, 10) + " "@;
    let f = d + padded(e.domain, 32) + " "@;
    let line = table_line(e);
    assert(line == f + e.rule);
    assert(a.len() == 21 && b.len() == 37 && c.len() == 44 && d.len() == 55 && f.len() == 88);
    assert(line.take(e.timestamp.len() as int) =~= e.timestamp);
    assert(line.subrange(21, 21int + e.source.len()) =~= e.source);
    assert(line.subrange(37, 37int + e.qtype.len()) =~= e.qtype);
    assert(line.subrange(44, 44int + e.action.len()) =~= e.action);
    assert(line.subrange(55, 55int + e.domain.len()) =~= e.domain);
    assert(line.skip(88) =~= e.rule);
}

/// The blocked domains are the domains of the queries that were blocked, in order and
/// as often as they were.
pub proof fn law_blocked_domains(a: Seq<Row>, e: Row, b: Seq<Row>)
    ensures
        e.action == "blocked"@ ==> blocked_domains(a.push(e) + b) == blocked_domains(a).push(
            e.domain,
        ) + blocked_domains(b),
        e.action != "blocked"@ ==> blocked_domains(a.push(e) + b) == blocked_domains(a)
            + blocked_domains(b),
    decreases b.len(),
{
    let whole = a.push(e) + b;
    if b.len() == 0 {
        assert(whole =~= a.push(e));
        assert(a.push(e).drop_last() =~= a);
        assert(blocked_domains(a).push(e.domain) + blocked_domains(b) =~= blocked_domains(a).push(
            e.domain,
        ));
        assert(blocked_domains(a) + blocked_domains(b) =~= blocked_domains(a));
    } else {
        let front = b.drop_last();
        law_blocked_domains(a, e, front);
        assert(whole.drop_last() =~= a.push(e) + front);
        assert(whole.last() == b.last());
        if b.last().action == "blocked"@ {
            assert(blocked_domains(a).push(e.domain) + blocked_domains(b) =~= (blocked_domains(
                a,
            ).push(e.domain) + blocked_domains(front)).push(b.last().domain));
            assert(blocked_domains(a) + blocked_domains(b) =~= (blocked_domains(a)
                + blocked_domains(front)).push(b.last().domain));
        }
    }
}

/// How often a key is counted is how often it is among the keys.
pub proof fn law_tally_multiset(keys: Seq<Seq<char>>, key: Seq<char>)
    ensures
        count_of(tally(keys), key) == keys.to_multiset().count(key),
    decreases keys.len(),
{
    broadcast use vstd::seq_lib::group_to_multiset_ensures;

    if keys.len() > 0 {
        let front = keys.drop_last();
        law_tally_multiset(front, key);
        lemma_bumped(tally(front), keys.last(), key);
        assert(keys =~= front.push(keys.last()));
    }
}

/// Keys are counted in the order of their first occurrence: further keys change none of
/// the places, and a key that is new is put behind the others.
pub proof fn law_tally_order(keys: Seq<Seq<char>>, key: Seq<char>)
    ensures
        ({
            let before = tally(keys);
            let after = tally(keys.push(key));
            &&& forall|i: int|
                0 <= i < before.len() ==> (#[trigger] after[i]).0 == before[i].0
            &&& keys.contains(key) ==> after.len() == before.len()
            &&& !keys.contains(key) ==> after == before.push((key, 1))
        }),
{
    assert(keys.push(key).drop_last() =~= keys);
    lemma_place_bounds(tally(keys), key);
    lemma_counted(keys, key);
}

proof fn lemma_counted(keys: Seq<Seq<char>>, key: Seq<char>)
    ensures
        place(tally(keys), key) < tally(keys).len() <==> keys.contains(key),
    decreases keys.len(),
{
    if keys.len() > 0 {
        let front = keys.drop_last();
        let last = keys.last();
        lemma_counted(front, key);
        lemma_bumped_place(tally(front), last, key);
        lemma_place_bounds(tally(front), key);
        lemma_place_bounds(tally(front), last);
        assert(keys[keys.len() - 1] == last);
        if front.contains(key) {
            let k = front.index_of(key);
            assert(keys[k] == key);
        }
        if keys.contains(key) && key != last {
            let k = keys.index_of(key);
            assert(front[k] == key);
        }
    }
}

/// The counts that are `n`, in order.
pub open spec fn having(t: Seq<(Seq<char>, int)>, n: int) -> Seq<(Seq<char>, int)>
    decreases t.len(),
{
    if t.len() == 0 {
        Seq::empty()
    } else if t.last().1 == n {
        having(t.drop_last(), n).push(t.last())
    } else {
        having(t.drop_last(), n)
    }
}

proof fn lemma_having_concat(a: Seq<(Seq<char>, int)>, b: Seq<(Seq<char>, int)>, n: int)
    ensures
        having(a + b, n) == having(a, n) + having(b, n),
    decreases b.len(),
{
    if b.len() == 0 {
        assert(a + b =~= a);
        assert(having(a, n) + having(b, n) =~= having(a, n));
    } else {
        lemma_having_concat(a, b.drop_last(), n);
        assert((a + b).drop_last() =~= a + b.drop_last());
        assert((a + b).last() == b.last());
        assert(having(a + b, n) =~= having(a, n) + having(b, n));
    }
}

proof fn lemma_having_none(t: Seq<(Seq<char>, int)>, n: int)
    requires
        forall|i: int| 0 <= i < t.len() ==> (#[trigger] t[i]).1 != n,
    ensures
        having(t, n).len() == 0,
    decreases t.len(),
{
    if t.len() > 0 {
        assert(t[t.len() - 1].1 != n);
        assert forall|i: int| 0 <= i < t.drop_last().len() implies (#[trigger] t.drop_last()[i]).1
            != n by {
            assert(t.drop_last()[i] == t[i]);
        }
        lemma_having_none(t.drop_last(), n);
    }
}

/// Equal counts keep their order in a ranking.
pub proof fn law_ranking_stable(t: Seq<(Seq<char>, int)>, n: int)
    ensures
        having(ranked(t), n) == having(t, n),
    decreases t.len(),
{
    if t.len() > 0 {
        let front = ranked(t.drop_last());
        let x = t.last();
        let k = rank_of(front, x.1);
        law_ranking_stable(t.drop_last(), n);
        law_ranking(t.drop_last());
        lemma_rank_bounds(front, x.1);
        let high = front.take(k);
        let low = front.skip(k);
        assert(front =~= high + low);
        assert(ranked(t) =~= high.push(x) + low);
        lemma_having_concat(high, low, n);
        lemma_having_concat(high.push(x), low, n);
        assert(high.push(x).drop_last() =~= high);
        if x.1 == n {
            assert forall|i: int| 0 <= i < low.len() implies (#[trigger] low[i]).1 != n by {
                assert(low[i] == front[k + i]);
            }
            lemma_having_none(low, n);
            assert(having(low, n) =~= Seq::empty());
            assert(having(high, n) + having(low, n) =~= having(high, n));
            assert(having(high.push(x), n) + having(low, n) =~= having(high, n).push(x));
        }
    }
}

/// A ranking shows its first ten counts, or all where there are fewer.
pub proof fn law_top(t: Seq<(Seq<char>, int)>)
    ensures
        top(t).len() == if t.len() < 10 {
            t.len()
        } else {
            10
        },
        top(t).is_prefix_of(ranked(t)),
{
    law_ranking(t);
    lemma_ranked_len(t);
    assert(ranked(t).take(ranked(t).len() as int) =~= ranked(t));
}

proof fn lemma_ranked_len(t: Seq<(Seq<char>, int)>)
    ensures
        ranked(t).len() == t.len(),
    decreases t.len(),
{
    if t.len() > 0 {
        lemma_ranked_len(t.drop_last());
        law_ranking(t.drop_last());
        lemma_rank_bounds(ranked(t.drop_last()), t.last().1);
    }
}

/// Where a count stands in the lines of a summary: behind an action of up to twelve
/// characters from column 15, behind a ranked name of up to forty from column 47; the
/// name from column 2, or from column 6 behind the place, which is counted from one.
pub proof fn law_summary_lines(i: int, c: (Seq<char>, int))
    requires
        0 <= i < 10,
        0 <= c.1,
    ensures
        c.0.len() <= 12 ==> {
            &&& action_line(c).subrange(2, 2int + c.0.len()) == c.0
            &&& action_line(c).skip(15) == number::decimal(c.1)
        },
        c.0.len() <= 40 ==> {
            &&& ranking_line(i, c).subrange(2, 2int + number::decimal(i + 1).len())
                == number::decimal(i + 1)
            &&& ranking_line(i, c).subrange(6, 6int + c.0.len()) == c.0
            &&& ranking_line(i, c).skip(47) == number::decimal(c.1)
        },
{
    reveal_strlit("  ");
    reveal_strlit(" ");
    reveal_strlit(". ");
    reveal_with_fuel(number::decimal, 3);
    assert(number::decimal(i + 1).len() <= 2);
    if c.0.len() <= 12 {
        let line = action_line(c);
        assert(line.subrange(2, 2int + c.0.len()) =~= c.0);
        assert(line.skip(15) =~= number::decimal(c.1));
    }
    if c.0.len() <= 40 {
        let line = ranking_line(i, c);
        let place = number::decimal(i + 1);
        assert(padded(place, 2).len() == 2);
        assert(line.subrange(2, 2int + place.len()) =~= place);
        assert(line.subrange(6, 6int + c.0.len()) =~= c.0);
        assert(line.skip(47) =~= number::decimal(c.1));
    }
}

/// A summary tells in order how many queries there are, how many of each action, which
/// domains were blocked and which sources asked most often.
pub proof fn law_summary(v: Seq<Row>, i: int)
    requires
        v.len() > 0,
    ensures
        ({
            let s = summary(v);
            let by_action = tally(v.map_values(|e: Row| e.action));
            let blocked = top(tally(blocked_domains(v)));
            let asking = top(tally(v.map_values(|e: Row| e.source)));
            let a = by_action.len() as int;
            let b = blocked.len() as int;
            &&& s.len() == 7 + a + b + asking.len()
            &&& s[0] == "Total queries: "@ + number::decimal(v.len() as int)
            &&& s[2] == "By action:"@
            &&& 0 <= i < a ==> s[3 + i] == action_line(by_action[i])
            &&& s[4 + a] == "Top 10 blocked domains:"@
            &&& 0 <= i < b ==> s[5 + a + i] == ranking_line(i, blocked[i])
            &&& s[6 + a + b] == "Top 10 sources:"@
            &&& 0 <= i < asking.len() ==> s[7 + a + b + i] == ranking_line(i, asking[i])
            &&& s[1].len() == 0 && s[3 + a].len() == 0 && s[5 + a + b].len() == 0
            &&& summary(Seq::empty()) == seq!["No matching entries."@]
        }),
{
    assert(actions(v) =~= v.map_values(|e: Row| e.action));
    assert(query_sources(v) =~= v.map_values(|e: Row| e.source));
}

} // verus!
