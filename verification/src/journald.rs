//! Entries for the journal, in its native protocol: one datagram per entry, one
//! `KEY=VALUE` line per field.
use vstd::prelude::*;
use crate::text;

verus! {

/// A field value with line breaks replaced, so that it stays on its line.
pub open spec fn sanitized(s: Seq<char>) -> Seq<char> {
    s.map_values(|c: char| without_break(c))
}

/// `_` in place of a line break.
pub open spec fn without_break(c: char) -> char {
    if c == '\n' || c == '\r' {
        '_'
    } else {
        c
    }
}

/// The priority of an entry: debug for queries that a rule allowed, info for
/// the rest.
pub open spec fn priority(action: Seq<char>) -> Seq<char> {
    if action == "allowed"@ {
        "7"@
    } else {
        "6"@
    }
}

/// The message for people; the rule is left out where there is none.
pub open spec fn message(
    source: Seq<char>,
    domain: Seq<char>,
    qtype: Seq<char>,
    action: Seq<char>,
    rule: Seq<char>,
) -> Seq<char> {
    let start = "query "@ + action + " "@ + domain + " ("@ + qtype + ") from "@ + source;
    if rule.len() == 0 {
        start
    } else {
        start + " ["@ + rule + "]"@
    }
}

/// One field on its line, without the line break.
pub open spec fn field(key: Seq<char>, value: Seq<char>) -> Seq<char> {
    key.push('=') + value
}

/// The fields of the entry for a query, in order; every value is free of line
/// breaks.
pub open spec fn fields(
    source: Seq<char>,
    domain: Seq<char>,
    qtype: Seq<char>,
    action: Seq<char>,
    rule: Seq<char>,
) -> Seq<Seq<char>> {
    let s = sanitized(source);
    let d = sanitized(domain);
    let q = sanitized(qtype);
    let a = sanitized(action);
    let r = sanitized(rule);
    seq![
        field("PRIORITY"@, priority(a)),
        field("SYSLOG_IDENTIFIER"@, "dns-ligase"@),
        field("MESSAGE"@, message(s, d, q, a, r)),
        field("QUERY_SOURCE"@, s),
        field("QUERY_DOMAIN"@, d),
        field("QUERY_QTYPE"@, q),
        field("QUERY_ACTION"@, a),
        field("QUERY_RULE"@, r),
    ]
}

/// Lines, each with its line break.
pub open spec fn unlines(lines: Seq<Seq<char>>) -> Seq<char>
    decreases lines.len(),
{
    if lines.len() == 0 {
        Seq::empty()
    } else {
        unlines(lines.drop_last()) + lines.last().push('\n')
    }
}

proof fn lemma_unlines_take(lines: Seq<Seq<char>>, i: int)
    requires
        0 <= i < lines.len(),
    ensures
        unlines(lines.take(i + 1)) == unlines(lines.take(i)) + lines[i].push('\n'),
{
    assert(lines.take(i + 1).drop_last() =~= lines.take(i));
}

/// Replaces the line breaks of a field value, so that a name that holds some
/// cannot pass for further fields.
pub fn sanitize_field(s: &str) -> (r: String)
    ensures
        r@ == sanitized(s@),
{
    let mut out = String::new();
    for c in it: s.chars()
        invariant
            it.seq() == s@,
            out@ == sanitized(s@.take(it.index())),
    {
        let ghost i = it.index();
        out.push(
            if c == '\n' || c == '\r' {
                '_'
            } else {
                c
            },
        );
        assert(sanitized(s@.take(i + 1)) =~= sanitized(s@.take(i)).push(without_break(s@[i])));
    }
    assert(s@.take(s@.len() as int) =~= s@);
    out
}

/// Appends one field on its line.
fn push_field(entry: &mut String, key: &str, value: &str)
    ensures
        final(entry)@ == old(entry)@ + field(key@, value@).push('\n'),
{
    let ghost start = entry@;
    entry.append(key);
    entry.push('=');
    entry.append(value);
    entry.push('\n');
    assert(entry@ =~= start + field(key@, value@).push('\n'));
}

/// The message for people.
fn query_message(source: &str, domain: &str, qtype: &str, action: &str, rule: &str) -> (r: String)
    ensures
        r@ == message(source@, domain@, qtype@, action@, rule@),
{
    let mut m = "query ".to_owned();
    m.append(action);
    m.append(" ");
    m.append(domain);
    m.append(" (");
    m.append(qtype);
    m.append(") from ");
    m.append(source);
    if !rule.is_empty() {
        m.append(" [");
        m.append(rule);
        m.append("]");
    }
    m
}

/// The journal entry for a decision on a query.
pub fn log_query(source: &str, domain: &str, qtype: &str, action: &str, rule: &str) -> (r: String)
    ensures
        r@ == unlines(fields(source@, domain@, qtype@, action@, rule@)),
{
    let s = sanitize_field(source);
    let d = sanitize_field(domain);
    let q = sanitize_field(qtype);
    let a = sanitize_field(action);
    let r = sanitize_field(rule);
    let priority: &str = if text::same_text(a.as_str(), "allowed") {
        "7"
    } else {
        "6"
    };
    let m = query_message(s.as_str(), d.as_str(), q.as_str(), a.as_str(), r.as_str());
    let ghost all = fields(source@, domain@, qtype@, action@, rule@);
    let mut entry = String::new();
    push_field(&mut entry, "PRIORITY", priority);
    push_field(&mut entry, "SYSLOG_IDENTIFIER", "dns-ligase");
    push_field(&mut entry, "MESSAGE", m.as_str());
    push_field(&mut entry, "QUERY_SOURCE", s.as_str());
    push_field(&mut entry, "QUERY_DOMAIN", d.as_str());
    push_field(&mut entry, "QUERY_QTYPE", q.as_str());
    push_field(&mut entry, "QUERY_ACTION", a.as_str());
    push_field(&mut entry, "QUERY_RULE", r.as_str());
    proof {
        assert(all.take(0) =~= Seq::empty());
        lemma_unlines_take(all, 0);
        lemma_unlines_take(all, 1);
        lemma_unlines_take(all, 2);
        lemma_unlines_take(all, 3);
        lemma_unlines_take(all, 4);
        lemma_unlines_take(all, 5);
        lemma_unlines_take(all, 6);
        lemma_unlines_take(all, 7);
        assert(all.take(8) =~= all);
    }
    entry
}

/// The text holds no line break.
pub open spec fn on_one_line(s: Seq<char>) -> bool {
    forall|i: int| 0 <= i < s.len() ==> s[i] != '\n' && s[i] != '\r'
}

/// A field value holds no line break, and one that holds none is kept as it is.
pub proof fn law_sanitized(s: Seq<char>)
    ensures
        on_one_line(sanitized(s)),
        sanitized(s).len() == s.len(),
        on_one_line(s) ==> sanitized(s) == s,
{
    if on_one_line(s) {
        assert(sanitized(s) =~= s);
    }
}

proof fn lemma_unlines(lines: Seq<Seq<char>>)
    requires
        forall|i: int| 0 <= i < lines.len() ==> on_one_line(#[trigger] lines[i]),
    ensures
        text::pieces(unlines(lines), '\n') == lines.push(Seq::empty()),
    decreases lines.len(),
{
    if lines.len() == 0 {
        assert(text::pieces(unlines(lines), '\n') =~= lines.push(Seq::empty()));
    } else {
        let front = lines.drop_last();
        assert forall|i: int| 0 <= i < front.len() implies on_one_line(#[trigger] front[i]) by {
            assert(front[i] == lines[i]);
        }
        lemma_unlines(front);
        let last = lines.last();
        assert(on_one_line(lines[lines.len() - 1]));
        let text_before = unlines(front);
        // The text before is empty or ends in a line break.
        if front.len() == 0 {
            assert(unlines(lines) =~= last.push('\n') + Seq::empty());
        }
        text::lemma_pieces_single(last, '\n');
        text::lemma_pieces_concat(last, Seq::empty(), '\n');
        assert(last.push('\n') + Seq::empty() =~= last.push('\n'));
        if front.len() > 0 {
            let f2 = front.drop_last();
            let head = unlines(f2) + front.last();
            assert(text_before =~= head.push('\n'));
            text::lemma_pieces_concat(head, last.push('\n'), '\n');
            text::lemma_pieces_concat(head, Seq::empty(), '\n');
            assert(head.push('\n') + Seq::empty() =~= text_before);
            assert(text::pieces(Seq::<char>::empty(), '\n') =~= seq![Seq::<char>::empty()]);
            assert(text::pieces(text_before, '\n') == text::pieces(head, '\n') + seq![
                Seq::<char>::empty(),
            ]);
            assert(text::pieces(head, '\n') =~= text::pieces(text_before, '\n').drop_last());
            assert(text::pieces(head, '\n') =~= front);
            assert(unlines(lines) =~= head.push('\n') + last.push('\n'));
        }
        assert(text::pieces(unlines(lines), '\n') =~= lines.push(Seq::empty()));
    }
}

proof fn lemma_message_on_one_line(
    source: Seq<char>,
    domain: Seq<char>,
    qtype: Seq<char>,
    action: Seq<char>,
    rule: Seq<char>,
)
    requires
        on_one_line(source),
        on_one_line(domain),
        on_one_line(qtype),
        on_one_line(action),
        on_one_line(rule),
    ensures
        on_one_line(message(source, domain, qtype, action, rule)),
{
    reveal_strlit("query ");
    reveal_strlit(" ");
    reveal_strlit(" (");
    reveal_strlit(") from ");
    reveal_strlit(" [");
    reveal_strlit("]");
}

/// An entry read line by line gives exactly its fields: whatever a name or a
/// rule holds, it adds no field and changes no other.
pub proof fn law_entry_fields(
    source: Seq<char>,
    domain: Seq<char>,
    qtype: Seq<char>,
    action: Seq<char>,
    rule: Seq<char>,
)
    ensures
        text::lines(unlines(fields(source, domain, qtype, action, rule))) == fields(
            source,
            domain,
            qtype,
            action,
            rule,
        ),
{
    let all = fields(source, domain, qtype, action, rule);
    law_sanitized(source);
    law_sanitized(domain);
    law_sanitized(qtype);
    law_sanitized(action);
    law_sanitized(rule);
    lemma_message_on_one_line(
        sanitized(source),
        sanitized(domain),
        sanitized(qtype),
        sanitized(action),
        sanitized(rule),
    );
    reveal_strlit("PRIORITY");
    reveal_strlit("SYSLOG_IDENTIFIER");
    reveal_strlit("dns-ligase");
    reveal_strlit("MESSAGE");
    reveal_strlit("QUERY_SOURCE");
    reveal_strlit("QUERY_DOMAIN");
    reveal_strlit("QUERY_QTYPE");
    reveal_strlit("QUERY_ACTION");
    reveal_strlit("QUERY_RULE");
    reveal_strlit("6");
    reveal_strlit("7");
    assert forall|i: int| 0 <= i < all.len() implies on_one_line(#[trigger] all[i]) by {}
    lemma_unlines(all);
    let p = all.push(Seq::<char>::empty());
    assert(p.drop_last() =~= all);
    let ended = p.drop_last().map_values(|l: Seq<char>| text::without_cr(l));
    assert forall|i: int| 0 <= i < all.len() implies #[trigger] ended[i] == all[i] by {
        assert(on_one_line(all[i]));
    }
    assert(ended =~= all);
}

/// A line break in a field value becomes an underscore; every other character stays.
pub proof fn law_sanitized_characters(s: Seq<char>, i: int)
    requires
        0 <= i < s.len(),
    ensures
        s[i] == '\n' || s[i] == '\r' ==> sanitized(s)[i] == '_',
        s[i] != '\n' && s[i] != '\r' ==> sanitized(s)[i] == s[i],
{
}

/// What the entry for a query holds, where its parts hold no line breaks: a priority,
/// the name of the program, a message, and each part under its own key.
pub proof fn law_query_entry(
    source: Seq<char>,
    domain: Seq<char>,
    qtype: Seq<char>,
    action: Seq<char>,
    rule: Seq<char>,
)
    requires
        on_one_line(source),
        on_one_line(domain),
        on_one_line(qtype),
        on_one_line(action),
        on_one_line(rule),
    ensures
        ({
            let f = fields(source, domain, qtype, action, rule);
            let told = "query "@ + action + " "@ + domain + " ("@ + qtype + ") from "@ + source;
            &&& f.len() == 8
            &&& action == "allowed"@ ==> f[0] == "PRIORITY=7"@
            &&& action != "allowed"@ ==> f[0] == "PRIORITY=6"@
            &&& f[1] == "SYSLOG_IDENTIFIER=dns-ligase"@
            &&& rule.len() == 0 ==> f[2] == "MESSAGE="@ + told
            &&& rule.len() > 0 ==> f[2] == "MESSAGE="@ + told + " ["@ + rule + "]"@
            &&& f[3] == "QUERY_SOURCE="@ + source
            &&& f[4] == "QUERY_DOMAIN="@ + domain
            &&& f[5] == "QUERY_QTYPE="@ + qtype
            &&& f[6] == "QUERY_ACTION="@ + action
            &&& f[7] == "QUERY_RULE="@ + rule
        }),
{
    law_sanitized(source);
    law_sanitized(domain);
    law_sanitized(qtype);
    law_sanitized(action);
    law_sanitized(rule);
    reveal_strlit("PRIORITY");
    reveal_strlit("PRIORITY=6");
    reveal_strlit("PRIORITY=7");
    reveal_strlit("6");
    reveal_strlit("7");
    reveal_strlit("SYSLOG_IDENTIFIER");
    reveal_strlit("dns-ligase");
    reveal_strlit("SYSLOG_IDENTIFIER=dns-ligase");
    reveal_strlit("MESSAGE");
    reveal_strlit("MESSAGE=");
    reveal_strlit("QUERY_SOURCE");
    reveal_strlit("QUERY_SOURCE=");
    reveal_strlit("QUERY_DOMAIN");
    reveal_strlit("QUERY_DOMAIN=");
    reveal_strlit("QUERY_QTYPE");
    reveal_strlit("QUERY_QTYPE=");
    reveal_strlit("QUERY_ACTION");
    reveal_strlit("QUERY_ACTION=");
    reveal_strlit("QUERY_RULE");
    reveal_strlit("QUERY_RULE=");
    let f = fields(source, domain, qtype, action, rule);
    assert(field("PRIORITY"@, "6"@) =~= "PRIORITY=6"@);
    assert(field("PRIORITY"@, "7"@) =~= "PRIORITY=7"@);
    assert(f[1] =~= "SYSLOG_IDENTIFIER=dns-ligase"@);
    assert("MESSAGE"@.push('=') =~= "MESSAGE="@);
    assert("QUERY_SOURCE"@.push('=') =~= "QUERY_SOURCE="@);
    assert("QUERY_DOMAIN"@.push('=') =~= "QUERY_DOMAIN="@);
    assert("QUERY_QTYPE"@.push('=') =~= "QUERY_QTYPE="@);
    assert("QUERY_ACTION"@.push('=') =~= "QUERY_ACTION="@);
    assert("QUERY_RULE"@.push('=') =~= "QUERY_RULE="@);
    let told = "query "@ + action + " "@ + domain + " ("@ + qtype + ") from "@ + source;
    assert("MESSAGE="@ + (told + " ["@ + rule + "]"@) =~= "MESSAGE="@ + told + " ["@ + rule + "]"@);
}

/// Lines put one behind the other, each with its line break.
pub proof fn law_unlines(a: Seq<Seq<char>>, line: Seq<char>)
    ensures
        unlines(Seq::empty()) == Seq::<char>::empty(),
        unlines(a.push(line)) == unlines(a) + line + seq!['\n'],
{
    assert(a.push(line).drop_last() =~= a);
    assert(unlines(a) + line.push('\n') =~= unlines(a) + line + seq!['\n']);
}

} // verus!
