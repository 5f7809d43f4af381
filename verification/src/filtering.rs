//! What can be relied on when domains are checked against rules.
use vstd::prelude::*;
use crate::blocklist;
use crate::blocklist::{Body, ListFormat, Outcome, Reading, RuleError, Rules};
use crate::pattern;
use crate::text;

verus! {

/// Whether one of the patterns matches somewhere in `d`.
pub open spec fn pattern_hit(patterns: Seq<Seq<char>>, d: Seq<char>) -> bool {
    exists|i: int| 0 <= i < patterns.len() && pattern::regex_finds(#[trigger] patterns[i], d)
}

/// Whether an allow rule speaks of `d`.
pub open spec fn allow_hit(rules: Rules, d: Seq<char>) -> bool {
    ||| rules.allow_domains.contains(d)
    ||| pattern_hit(rules.allow_patterns, d)
    ||| blocklist::suffix_hit(rules.allow_suffixes, d)
}

/// Whether a block rule speaks of `d`.
pub open spec fn block_hit(rules: Rules, d: Seq<char>) -> bool {
    ||| rules.block_domains.contains(d)
    ||| pattern_hit(rules.block_patterns, d)
    ||| blocklist::suffix_hit(rules.block_suffixes, d)
}

/// Whether `d` is a subdomain of `s`.
pub open spec fn below(d: Seq<char>, s: Seq<char>) -> bool {
    &&& d.len() > s.len()
    &&& d[d.len() - s.len() - 1] == '.'
    &&& d.skip(d.len() - s.len()) == s
}

/// Whether every rule of `a` is one of `b`.
pub open spec fn contained(a: Rules, b: Rules) -> bool {
    &&& a.allow_domains.subset_of(b.allow_domains)
    &&& a.block_domains.subset_of(b.block_domains)
    &&& a.allow_suffixes.subset_of(b.allow_suffixes)
    &&& a.block_suffixes.subset_of(b.block_suffixes)
    &&& a.allow_patterns.is_prefix_of(b.allow_patterns)
    &&& a.block_patterns.is_prefix_of(b.block_patterns)
}

/// The first match exists exactly where some pattern matches, and is one of the
/// patterns and matches.
pub proof fn lemma_first_match_hits(patterns: Seq<Seq<char>>, d: Seq<char>)
    ensures
        blocklist::first_match(patterns, d) is Some <==> pattern_hit(patterns, d),
        blocklist::first_match(patterns, d) matches Some(p) ==> patterns.contains(p)
            && pattern::regex_finds(p, d),
    decreases patterns.len(),
{
    if patterns.len() > 0 {
        let front = patterns.drop_last();
        lemma_first_match_hits(front, d);
        if pattern_hit(front, d) {
            let i = choose|i: int|
                0 <= i < front.len() && pattern::regex_finds(#[trigger] front[i], d);
            assert(patterns[i] == front[i]);
            let p = blocklist::first_match(front, d)->Some_0;
            let k = choose|k: int| 0 <= k < front.len() && front[k] == p;
            assert(patterns[k] == p);
        } else if pattern_hit(patterns, d) {
            let i = choose|i: int|
                0 <= i < patterns.len() && pattern::regex_finds(#[trigger] patterns[i], d);
            if i < front.len() {
                assert(front[i] == patterns[i]);
            }
        }
        if pattern::regex_finds(patterns.last(), d) {
            assert(pattern::regex_finds(patterns[patterns.len() - 1], d));
        }
    }
}

/// Allow rules win: a domain that an allow rule speaks of is allowed, whatever
/// the block rules are.
pub proof fn law_allow_wins(rules: Rules, d: Seq<char>)
    requires
        allow_hit(rules, d),
    ensures
        blocklist::outcome(rules, d) is Allowed,
{
    lemma_first_match_hits(rules.allow_patterns, d);
}

/// A domain is blocked exactly where a block rule and no allow rule speaks of
/// it, and forwarded without mention exactly where no rule does.
pub proof fn law_outcome(rules: Rules, d: Seq<char>)
    ensures
        blocklist::outcome(rules, d) is Allowed <==> allow_hit(rules, d),
        blocklist::outcome(rules, d) is Blocked <==> !allow_hit(rules, d) && block_hit(rules, d),
        blocklist::outcome(rules, d) is Forwarded <==> !allow_hit(rules, d) && !block_hit(rules, d),
{
    lemma_first_match_hits(rules.allow_patterns, d);
    lemma_first_match_hits(rules.block_patterns, d);
}

/// A rule for a domain and everything below it covers the domain itself and its
/// subdomains, and nothing else.
pub proof fn law_suffix_covers(set: Set<Seq<char>>, d: Seq<char>)
    ensures
        blocklist::suffix_hit(set, d) <==> exists|s: Seq<char>| #[trigger]
            set.contains(s) && (d == s || below(d, s)),
{
    if blocklist::suffix_hit(set, d) {
        if !set.contains(d) {
            let i = choose|i: int|
                0 <= i < d.len() && d[i] == '.' && set.contains(#[trigger] d.skip(i + 1));
            let s = d.skip(i + 1);
            assert(set.contains(s) && below(d, s));
        }
    }
    if exists|s: Seq<char>| #[trigger] set.contains(s) && (d == s || below(d, s)) {
        let s = choose|s: Seq<char>| #[trigger] set.contains(s) && (d == s || below(d, s));
        if d != s {
            let i = d.len() - s.len() - 1;
            assert(d.skip(i + 1) == s);
        }
    }
}

/// Reading a line only adds rules.
pub proof fn law_line_adds(rules: Rules, line: Seq<char>, format: ListFormat, as_allow: bool)
    ensures
        contained(rules, blocklist::after_line(rules, line, format, as_allow)),
{
    let after = blocklist::after_line(rules, line, format, as_allow);
    assert(rules.allow_patterns.is_prefix_of(after.allow_patterns));
    assert(rules.block_patterns.is_prefix_of(after.block_patterns));
}

/// Reading a line leaves the rules as they are or adds one rule, and adds it where
/// it belongs: with `as_allow`, no block rule changes; without it, and without
/// the mark of an exception, no allow rule does.
pub proof fn law_line_adds_one(rules: Rules, line: Seq<char>, format: ListFormat, as_allow: bool)
    ensures
        ({
            let after = blocklist::after_line(rules, line, format, as_allow);
            &&& exists|allow: bool, body: blocklist::Body| #[trigger]
                blocklist::with_rule(rules, allow, body) == after
            &&& as_allow ==> {
                &&& after.block_domains == rules.block_domains
                &&& after.block_suffixes == rules.block_suffixes
                &&& after.block_patterns == rules.block_patterns
            }
            &&& !as_allow && !blocklist::at_mark().is_prefix_of(text::trimmed(line)) ==> {
                &&& after.allow_domains == rules.allow_domains
                &&& after.allow_suffixes == rules.allow_suffixes
                &&& after.allow_patterns == rules.allow_patterns
            }
        }),
{
    let after = blocklist::after_line(rules, line, format, as_allow);
    let body = blocklist::line_body(line, format);
    if blocklist::acceptable(body) {
        let allow = blocklist::line_allows(line, format, as_allow);
        assert(blocklist::with_rule(rules, allow, blocklist::lowered(body)) == after);
    } else {
        assert(blocklist::with_rule(rules, as_allow, blocklist::Body::Nothing) == after);
    }
}

/// The domain that a rule names, where it names one.
pub open spec fn named(body: blocklist::Body) -> Option<Seq<char>> {
    match body {
        blocklist::Body::Exact(d) => Some(d),
        blocklist::Body::Suffix(d) => Some(d),
        _ => None,
    }
}

/// A name that a line adds is the lowercase form of the domain that the line
/// names, which is not empty and does not end in a dot. Of a line in ASCII the
/// name that is added is itself not empty, in lowercase, and without a dot at its
/// end.
pub proof fn law_added_names(
    rules: Rules,
    line: Seq<char>,
    format: ListFormat,
    as_allow: bool,
    d: Seq<char>,
)
    requires
        blocklist::added(rules, blocklist::after_line(rules, line, format, as_allow), d),
    ensures
        named(blocklist::line_body(line, format)) matches Some(n) && d == text::lowercase(n)
            && blocklist::clean_name(n),
        vstd::utf8::is_ascii_chars(line) ==> blocklist::clean_name(d) && text::lowercase(d) == d,
{
    let body = blocklist::line_body(line, format);
    blocklist::lemma_line_names_cleanly(line, format);
    let n = named(body)->Some_0;
    assert(named(body) is Some && d == text::lowercase(n));
    if n.len() == 0 {
        assert(vstd::utf8::is_ascii_chars(n));
        assert(text::lowercase(n).len() == 0);
    }
    if vstd::utf8::is_ascii_chars(line) {
        lemma_line_body_ascii(line, format);
        law_ascii_lowercase_idempotent(n);
        assert(d.last() == text::ascii_lower(n.last()));
    }
}

/// Every character of `part` is one of `s`.
spec fn drawn_from(part: Seq<char>, s: Seq<char>) -> bool {
    forall|i: int| 0 <= i < part.len() ==> s.contains(#[trigger] part[i])
}

proof fn lemma_drawn_trans(a: Seq<char>, b: Seq<char>, c: Seq<char>)
    requires
        drawn_from(a, b),
        drawn_from(b, c),
    ensures
        drawn_from(a, c),
{
    assert forall|i: int| 0 <= i < a.len() implies c.contains(#[trigger] a[i]) by {
        assert(b.contains(a[i]));
        let k = b.index_of(a[i]);
        assert(c.contains(b[k]));
    }
}

proof fn lemma_drawn_subrange(s: Seq<char>, i: int, j: int)
    requires
        0 <= i <= j <= s.len(),
    ensures
        drawn_from(s.subrange(i, j), s),
{
    let part = s.subrange(i, j);
    assert forall|k: int| 0 <= k < part.len() implies s.contains(#[trigger] part[k]) by {
        assert(s[i + k] == part[k]);
    }
}

proof fn lemma_drawn_trimmed_start(s: Seq<char>)
    ensures
        drawn_from(text::trimmed_start(s), s),
    decreases s.len(),
{
    if s.len() > 0 && text::is_white(s[0]) {
        lemma_drawn_trimmed_start(s.drop_first());
        lemma_drawn_subrange(s, 1, s.len() as int);
        lemma_drawn_trans(text::trimmed_start(s), s.drop_first(), s);
    }
}

proof fn lemma_drawn_trimmed_end(s: Seq<char>)
    ensures
        drawn_from(text::trimmed_end(s), s),
    decreases s.len(),
{
    if s.len() > 0 && text::is_white(s.last()) {
        lemma_drawn_trimmed_end(s.drop_last());
        lemma_drawn_subrange(s, 0, s.len() - 1);
        lemma_drawn_trans(text::trimmed_end(s), s.drop_last(), s);
    }
}

proof fn lemma_drawn_trimmed(s: Seq<char>)
    ensures
        drawn_from(text::trimmed(s), s),
{
    lemma_drawn_trimmed_start(s);
    lemma_drawn_trimmed_end(text::trimmed_start(s));
    lemma_drawn_trans(text::trimmed(s), text::trimmed_start(s), s);
}

proof fn lemma_drawn_without_trailing(s: Seq<char>, c: char)
    ensures
        drawn_from(text::without_trailing(s, c), s),
    decreases s.len(),
{
    if s.len() > 0 && s.last() == c {
        lemma_drawn_without_trailing(s.drop_last(), c);
        lemma_drawn_subrange(s, 0, s.len() - 1);
        lemma_drawn_trans(text::without_trailing(s, c), s.drop_last(), s);
    }
}

proof fn lemma_drawn_without_prefixes(s: Seq<char>, p: Seq<char>)
    ensures
        drawn_from(text::without_prefixes(s, p), s),
    decreases s.len(),
{
    if 0 < p.len() && p.is_prefix_of(s) {
        let rest = s.skip(p.len() as int);
        lemma_drawn_without_prefixes(rest, p);
        lemma_drawn_subrange(s, p.len() as int, s.len() as int);
        lemma_drawn_trans(text::without_prefixes(s, p), rest, s);
    }
}

proof fn lemma_drawn_before(s: Seq<char>, c: char)
    ensures
        drawn_from(text::before(s, c), s),
    decreases s.len(),
{
    if s.len() > 0 && s[0] != c {
        let rest = s.drop_first();
        lemma_drawn_before(rest, c);
        lemma_drawn_subrange(s, 1, s.len() as int);
        lemma_drawn_trans(text::before(rest, c), rest, s);
        let b = text::before(s, c);
        assert forall|i: int| 0 <= i < b.len() implies s.contains(#[trigger] b[i]) by {
            if i == 0 {
                assert(s[0] == b[0]);
            } else {
                assert(b[i] == text::before(rest, c)[i - 1]);
            }
        }
    }
}

proof fn lemma_drawn_last_word(s: Seq<char>)
    ensures
        drawn_from(text::last_word(s), s),
    decreases s.len(),
{
    if s.len() > 0 && !text::is_white(s.last()) {
        let front = s.drop_last();
        lemma_drawn_last_word(front);
        lemma_drawn_subrange(s, 0, s.len() - 1);
        lemma_drawn_trans(text::last_word(front), front, s);
        let w = text::last_word(s);
        assert forall|i: int| 0 <= i < w.len() implies s.contains(#[trigger] w[i]) by {
            if i < text::last_word(front).len() {
                assert(w[i] == text::last_word(front)[i]);
            } else {
                assert(s[s.len() - 1] == w[i]);
            }
        }
    }
}

proof fn lemma_drawn_cleaned(s: Seq<char>)
    ensures
        blocklist::cleaned_domain(s) matches Some(d) ==> drawn_from(d, s),
{
    let b = text::before(s, '#');
    let t = text::trimmed(b);
    let w = text::last_word(t);
    lemma_drawn_before(s, '#');
    lemma_drawn_trimmed(b);
    lemma_drawn_last_word(t);
    lemma_drawn_without_trailing(w, '.');
    lemma_drawn_trans(t, b, s);
    lemma_drawn_trans(w, t, s);
    lemma_drawn_trans(text::without_trailing(w, '.'), w, s);
}

/// The domain that a line in ASCII names is in ASCII.
proof fn lemma_line_body_ascii(line: Seq<char>, format: ListFormat)
    requires
        vstd::utf8::is_ascii_chars(line),
    ensures
        named(blocklist::line_body(line, format)) matches Some(n) ==> vstd::utf8::is_ascii_chars(n),
{
    let l = text::trimmed(line);
    let p = blocklist::rule_part(l);
    let bare = text::without_prefixes(p, blocklist::bar_mark());
    let open = text::without_trailing(bare, '^');
    let suffix = text::without_trailing(open, '.');
    lemma_drawn_trimmed(line);
    lemma_drawn_without_prefixes(l, blocklist::at_mark());
    lemma_drawn_trans(p, l, line);
    lemma_drawn_cleaned(l);
    lemma_drawn_cleaned(p);
    lemma_drawn_without_prefixes(p, blocklist::bar_mark());
    lemma_drawn_trans(bare, p, line);
    lemma_drawn_without_trailing(bare, '^');
    lemma_drawn_trans(open, bare, line);
    lemma_drawn_without_trailing(open, '.');
    lemma_drawn_trans(suffix, open, line);
    if let Some(n) = named(blocklist::line_body(line, format)) {
        if blocklist::cleaned_domain(p) == Some(n) {
            lemma_drawn_trans(n, p, line);
        } else if blocklist::cleaned_domain(l) == Some(n) {
            lemma_drawn_trans(n, l, line);
        }
        assert(drawn_from(n, line));
        assert forall|i: int| 0 <= i < n.len() implies '\0' <= #[trigger] n[i] <= '\u{7f}' by {
            assert(line.contains(n[i]));
            let k = line.index_of(n[i]);
            assert('\0' <= line[k] <= '\u{7f}');
        }
    }
}

/// Reading a list only adds rules.
pub proof fn law_list_adds(rules: Rules, lines: Seq<Seq<char>>, as_allow: bool)
    ensures
        contained(rules, blocklist::after_lines(rules, lines, as_allow)),
    decreases lines.len(),
{
    if lines.len() > 0 {
        law_list_adds(rules, lines.drop_last(), as_allow);
        let mid = blocklist::after_lines(rules, lines.drop_last(), as_allow);
        law_line_adds(mid, lines.last(), blocklist::auto_format(lines.last()), as_allow);
        lemma_contained_trans(
            rules,
            mid,
            blocklist::after_lines(rules, lines, as_allow),
        );
    }
}

/// Containment carries over.
pub proof fn lemma_contained_trans(a: Rules, b: Rules, c: Rules)
    requires
        contained(a, b),
        contained(b, c),
    ensures
        contained(a, c),
{
    lemma_prefix_trans(a.allow_patterns, b.allow_patterns, c.allow_patterns);
    lemma_prefix_trans(a.block_patterns, b.block_patterns, c.block_patterns);
}

proof fn lemma_prefix_trans(a: Seq<Seq<char>>, b: Seq<Seq<char>>, c: Seq<Seq<char>>)
    requires
        a.is_prefix_of(b),
        b.is_prefix_of(c),
    ensures
        a.is_prefix_of(c),
{
    assert(c.subrange(0, a.len() as int) =~= b.subrange(0, a.len() as int));
}

/// A blank line or a comment changes nothing, in every format.
pub proof fn law_comments_ignored(
    rules: Rules,
    line: Seq<char>,
    format: ListFormat,
    as_allow: bool,
)
    requires
        blocklist::is_comment(text::trimmed(line)),
    ensures
        blocklist::after_line(rules, line, format, as_allow) == rules,
{
}

/// An allowlist leaves the block rules as they are.
pub proof fn law_allowlist_keeps_block_rules(rules: Rules, lines: Seq<Seq<char>>)
    ensures
        ({
            let after = blocklist::after_lines(rules, lines, true);
            &&& after.block_domains == rules.block_domains
            &&& after.block_suffixes == rules.block_suffixes
            &&& after.block_patterns == rules.block_patterns
        }),
    decreases lines.len(),
{
    if lines.len() > 0 {
        law_allowlist_keeps_block_rules(rules, lines.drop_last());
    }
}

/// With more allow rules and the same block rules, no domain is blocked that was
/// not: an allowlist can only unblock.
pub proof fn law_allowlist_only_unblocks(rules: Rules, lines: Seq<Seq<char>>, d: Seq<char>)
    requires
        blocklist::outcome(blocklist::after_lines(rules, lines, true), d) is Blocked,
    ensures
        blocklist::outcome(rules, d) is Blocked,
{
    let after = blocklist::after_lines(rules, lines, true);
    law_allowlist_keeps_block_rules(rules, lines);
    law_list_adds(rules, lines, true);
    law_outcome(after, d);
    law_outcome(rules, d);
    lemma_hits_grow(rules, after, d);
}

/// What a rule speaks of, it still speaks of when rules are added.
pub proof fn lemma_hits_grow(a: Rules, b: Rules, d: Seq<char>)
    requires
        contained(a, b),
    ensures
        allow_hit(a, d) ==> allow_hit(b, d),
        block_hit(a, d) ==> block_hit(b, d),
{
    lemma_pattern_hit_grows(a.allow_patterns, b.allow_patterns, d);
    lemma_pattern_hit_grows(a.block_patterns, b.block_patterns, d);
    lemma_suffix_hit_grows(a.allow_suffixes, b.allow_suffixes, d);
    lemma_suffix_hit_grows(a.block_suffixes, b.block_suffixes, d);
}

proof fn lemma_pattern_hit_grows(a: Seq<Seq<char>>, b: Seq<Seq<char>>, d: Seq<char>)
    requires
        a.is_prefix_of(b),
    ensures
        pattern_hit(a, d) ==> pattern_hit(b, d),
{
    if pattern_hit(a, d) {
        let i = choose|i: int| 0 <= i < a.len() && pattern::regex_finds(#[trigger] a[i], d);
        assert(b.subrange(0, a.len() as int)[i] == a[i]);
        assert(b[i] == a[i]);
    }
}

proof fn lemma_suffix_hit_grows(a: Set<Seq<char>>, b: Set<Seq<char>>, d: Seq<char>)
    requires
        a.subset_of(b),
    ensures
        blocklist::suffix_hit(a, d) ==> blocklist::suffix_hit(b, d),
{
    if blocklist::suffix_hit(a, d) && !a.contains(d) {
        let i = choose|i: int|
            0 <= i < d.len() && d[i] == '.' && a.contains(#[trigger] d.skip(i + 1));
        assert(b.contains(d.skip(i + 1)));
    }
}

/// Merged rules speak of exactly what one or the other spoke of.
pub proof fn law_merge_unites(a: Rules, b: Rules, d: Seq<char>)
    ensures
        allow_hit(blocklist::merged(a, b), d) <==> allow_hit(a, d) || allow_hit(b, d),
        block_hit(blocklist::merged(a, b), d) <==> block_hit(a, d) || block_hit(b, d),
{
    lemma_pattern_hit_concat(a.allow_patterns, b.allow_patterns, d);
    lemma_pattern_hit_concat(a.block_patterns, b.block_patterns, d);
    lemma_suffix_hit_union(a.allow_suffixes, b.allow_suffixes, d);
    lemma_suffix_hit_union(a.block_suffixes, b.block_suffixes, d);
}

proof fn lemma_pattern_hit_concat(a: Seq<Seq<char>>, b: Seq<Seq<char>>, d: Seq<char>)
    ensures
        pattern_hit(a + b, d) <==> pattern_hit(a, d) || pattern_hit(b, d),
{
    if pattern_hit(a + b, d) {
        let i = choose|i: int|
            0 <= i < (a + b).len() && pattern::regex_finds(#[trigger] (a + b)[i], d);
        if i < a.len() {
            assert(a[i] == (a + b)[i]);
        } else {
            assert(b[i - a.len()] == (a + b)[i]);
        }
    }
    if pattern_hit(a, d) {
        let i = choose|i: int| 0 <= i < a.len() && pattern::regex_finds(#[trigger] a[i], d);
        assert((a + b)[i] == a[i]);
    }
    if pattern_hit(b, d) {
        let i = choose|i: int| 0 <= i < b.len() && pattern::regex_finds(#[trigger] b[i], d);
        assert((a + b)[i + a.len()] == b[i]);
    }
}

proof fn lemma_suffix_hit_union(a: Set<Seq<char>>, b: Set<Seq<char>>, d: Seq<char>)
    ensures
        blocklist::suffix_hit(a.union(b), d) <==> blocklist::suffix_hit(a, d)
            || blocklist::suffix_hit(b, d),
{
    lemma_suffix_hit_grows(a, a.union(b), d);
    lemma_suffix_hit_grows(b, a.union(b), d);
    if blocklist::suffix_hit(a.union(b), d) && !a.union(b).contains(d) {
        let i = choose|i: int|
            0 <= i < d.len() && d[i] == '.' && a.union(b).contains(#[trigger] d.skip(i + 1));
        assert(a.contains(d.skip(i + 1)) || b.contains(d.skip(i + 1)));
    }
}

/// An exact rule adds its domain to what is spoken of, and no other.
pub proof fn law_exact_rule(rules: Rules, allow: bool, d: Seq<char>, name: Seq<char>)
    ensures
        ({
            let after = blocklist::with_rule(rules, allow, blocklist::Body::Exact(d));
            &&& allow_hit(after, name) <==> allow_hit(rules, name) || (allow && name == d)
            &&& block_hit(after, name) <==> block_hit(rules, name) || (!allow && name == d)
        }),
{
}

/// A rule for a domain and everything below it adds the domain and its
/// subdomains to what is spoken of, and no other.
pub proof fn law_suffix_rule(rules: Rules, allow: bool, d: Seq<char>, name: Seq<char>)
    requires
        d.len() > 0,
    ensures
        ({
            let after = blocklist::with_rule(rules, allow, blocklist::Body::Suffix(d));
            let covered = name == d || below(name, d);
            &&& allow_hit(after, name) <==> allow_hit(rules, name) || (allow && covered)
            &&& block_hit(after, name) <==> block_hit(rules, name) || (!allow && covered)
        }),
{
    lemma_suffix_insert(rules.allow_suffixes, d, name);
    lemma_suffix_insert(rules.block_suffixes, d, name);
}

proof fn lemma_suffix_insert(set: Set<Seq<char>>, d: Seq<char>, name: Seq<char>)
    ensures
        blocklist::suffix_hit(set.insert(d), name) <==> blocklist::suffix_hit(set, name) || name
            == d || below(name, d),
{
    law_suffix_covers(set, name);
    law_suffix_covers(set.insert(d), name);
    assert(set.insert(d).contains(d));
    lemma_suffix_hit_grows(set, set.insert(d), name);
    if blocklist::suffix_hit(set.insert(d), name) {
        let s = choose|s: Seq<char>| #[trigger]
            set.insert(d).contains(s) && (name == s || below(name, s));
        if s != d {
            assert(set.contains(s));
        }
    }
}

/// A domain that can be named in a rule as it stands: it begins and ends with a
/// character that the rule syntax does not take for its own.
pub open spec fn plain_domain(d: Seq<char>) -> bool {
    &&& d.len() > 0
    &&& d[0] != '|'
    &&& d.last() != '^'
    &&& d.last() != '.'
}

/// The AdBlock rule for `d` and everything below it.
pub open spec fn suffix_rule(d: Seq<char>) -> Seq<char> {
    (blocklist::bar_mark() + d).push('^')
}

/// How the AdBlock rule for a domain and everything below it is read, alone and
/// as an exception.
proof fn lemma_suffix_rule_read(d: Seq<char>)
    requires
        plain_domain(d),
    ensures
        blocklist::adblock_body(suffix_rule(d)) == blocklist::Body::Suffix(d),
        text::trimmed(suffix_rule(d)) == suffix_rule(d),
        blocklist::rule_part(suffix_rule(d)) == suffix_rule(d),
        text::trimmed(blocklist::at_mark() + suffix_rule(d)) == blocklist::at_mark() + suffix_rule(
            d,
        ),
        blocklist::rule_part(blocklist::at_mark() + suffix_rule(d)) == suffix_rule(d),
{
    let rule = suffix_rule(d);
    let bars = blocklist::bar_mark();
    let ats = blocklist::at_mark();
    assert(rule[0] == '|' && rule[1] == '|' && rule.last() == '^');
    assert(bars.is_prefix_of(rule)) by {
        assert(rule.subrange(0, 2) =~= bars);
    }
    let rest = rule.skip(2);
    assert(rest =~= d.push('^'));
    assert(rest[0] == d[0]);
    assert(!bars.is_prefix_of(rest)) by {
        if bars.is_prefix_of(rest) {
            assert(rest.subrange(0, 2)[0] == bars[0]);
        }
    }
    reveal_with_fuel(text::without_prefixes, 3);
    assert(text::without_prefixes(rule, bars) == rest);
    reveal_with_fuel(text::without_trailing, 3);
    assert(rest.drop_last() =~= d);
    assert(text::without_trailing(rest, '^') == d);
    assert(text::without_trailing(d, '.') == d);
    assert(!ats.is_prefix_of(rule)) by {
        if ats.is_prefix_of(rule) {
            assert(rule.subrange(0, 2)[0] == ats[0]);
        }
    }
    let exception = ats + rule;
    assert(exception[0] == '@' && exception.last() == '^');
    assert(ats.is_prefix_of(exception)) by {
        assert(exception.subrange(0, 2) =~= ats);
    }
    assert(exception.skip(2) =~= rule);
}

/// The rule `||d^` blocks `d` and every subdomain of it, unless an allow rule
/// speaks of the name that is asked for.
pub proof fn law_suffix_rule_blocks(rules: Rules, d: Seq<char>, name: Seq<char>)
    requires
        plain_domain(d),
        text::lowercase(d).len() > 0,
        name == text::lowercase(d) || below(name, text::lowercase(d)),
        !allow_hit(rules, name),
    ensures
        blocklist::outcome(
            blocklist::after_line(rules, suffix_rule(d), ListFormat::AdBlock, false),
            name,
        ) is Blocked,
        blocklist::after_auto(rules, suffix_rule(d), false) == blocklist::after_line(
            rules,
            suffix_rule(d),
            ListFormat::AdBlock,
            false,
        ),
{
    lemma_suffix_rule_read(d);
    let rule = suffix_rule(d);
    assert(rule[0] == '|');
    let after = blocklist::after_line(rules, rule, ListFormat::AdBlock, false);
    assert(!blocklist::at_mark().is_prefix_of(rule)) by {
        if blocklist::at_mark().is_prefix_of(rule) {
            assert(rule.subrange(0, 2)[0] == blocklist::at_mark()[0]);
        }
    }
    assert(after.block_suffixes.contains(text::lowercase(d)));
    law_suffix_covers(after.block_suffixes, name);
    law_outcome(after, name);
    assert(blocklist::bar_mark().is_prefix_of(rule)) by {
        assert(rule.subrange(0, 2) =~= blocklist::bar_mark());
    }
}

/// The exception `@@||d^` allows `d` and every subdomain of it, whatever the
/// other rules are.
pub proof fn law_exception_allows(rules: Rules, d: Seq<char>, name: Seq<char>)
    requires
        plain_domain(d),
        text::lowercase(d).len() > 0,
        name == text::lowercase(d) || below(name, text::lowercase(d)),
    ensures
        blocklist::outcome(
            blocklist::after_line(
                rules,
                blocklist::at_mark() + suffix_rule(d),
                ListFormat::AdBlock,
                false,
            ),
            name,
        ) is Allowed,
{
    lemma_suffix_rule_read(d);
    let rule = blocklist::at_mark() + suffix_rule(d);
    assert(rule[0] == '@');
    let after = blocklist::after_line(rules, rule, ListFormat::AdBlock, false);
    assert(blocklist::at_mark().is_prefix_of(rule)) by {
        assert(rule.subrange(0, 2) =~= blocklist::at_mark());
    }
    assert(after.allow_suffixes.contains(text::lowercase(d)));
    law_suffix_covers(after.allow_suffixes, name);
    law_outcome(after, name);
}

/// Letter case does not count for ASCII domains: putting a name in lowercase
/// twice gives what once gives.
pub proof fn law_ascii_lowercase_idempotent(d: Seq<char>)
    requires
        vstd::utf8::is_ascii_chars(d),
    ensures
        text::lowercase(text::lowercase(d)) == text::lowercase(d),
{
    let low = text::lowercase(d);
    assert forall|i: int| 0 <= i < low.len() implies '\0' <= #[trigger] low[i] <= '\u{7f}'
        && text::ascii_lower(low[i]) == low[i] by {
        assert(low[i] == text::ascii_lower(d[i]));
        assert('\0' <= d[i] <= '\u{7f}');
    }
    assert(text::lowercase(low) =~= low);
}

// ---------------------------------------------------------------------------
// Which rules a list gives
// ---------------------------------------------------------------------------

/// Whether the rules hold one rule.
pub open spec fn has_rule(rules: Rules, allow: bool, body: Body) -> bool {
    match body {
        Body::Nothing => false,
        Body::Exact(d) => if allow {
            rules.allow_domains.contains(d)
        } else {
            rules.block_domains.contains(d)
        },
        Body::Suffix(d) => if allow {
            rules.allow_suffixes.contains(d)
        } else {
            rules.block_suffixes.contains(d)
        },
        Body::Pattern(p) => if allow {
            rules.allow_patterns.contains(p)
        } else {
            rules.block_patterns.contains(p)
        },
    }
}

/// Whether a line in a format gives a rule: the line names it, its domain in
/// lowercase and not empty, its pattern one that compiles; and it allows where the
/// whole list does or where the line is marked as an exception.
pub open spec fn line_gives(
    line: Seq<char>,
    format: ListFormat,
    as_allow: bool,
    allow: bool,
    body: Body,
) -> bool {
    &&& allow == blocklist::line_allows(line, format, as_allow)
    &&& match blocklist::line_body(line, format) {
        Body::Nothing => false,
        Body::Exact(d) => body == Body::Exact(text::lowercase(d)),
        Body::Suffix(d) => body == Body::Suffix(text::lowercase(d)) && text::lowercase(d).len() > 0,
        Body::Pattern(p) => body == Body::Pattern(p) && pattern::regex_takes(p),
    }
}

/// Whether a line of a list, its format detected, gives a rule.
pub open spec fn list_gives(
    lines: Seq<Seq<char>>,
    as_allow: bool,
    allow: bool,
    body: Body,
) -> bool {
    exists|k: int|
        0 <= k < lines.len() && line_gives(
            #[trigger] lines[k],
            blocklist::auto_format(lines[k]),
            as_allow,
            allow,
            body,
        )
}

proof fn lemma_push_contains(v: Seq<Seq<char>>, x: Seq<char>, p: Seq<char>)
    ensures
        v.push(x).contains(p) <==> v.contains(p) || p == x,
{
    if v.contains(p) {
        let k = v.index_of(p);
        assert(v.push(x)[k] == p);
    }
    assert(v.push(x)[v.len() as int] == x);
    if v.push(x).contains(p) && p != x {
        let k = v.push(x).index_of(p);
        assert(v[k] == p);
    }
}

/// Adding a rule adds that rule and no other.
pub proof fn law_with_rule(rules: Rules, allow: bool, body: Body, a: bool, b: Body)
    ensures
        has_rule(blocklist::with_rule(rules, allow, body), a, b) <==> has_rule(rules, a, b) || (a
            == allow && b == body && !(body is Nothing) && !(body matches Body::Suffix(d) && d.len()
            == 0)),
{
    if let (Body::Pattern(x), Body::Pattern(p)) = (body, b) {
        lemma_push_contains(rules.allow_patterns, x, p);
        lemma_push_contains(rules.block_patterns, x, p);
    }
    if let Body::Suffix(d) = body {
        if d.len() == 0 {
            assert(blocklist::with_rule(rules, allow, body) == rules);
        }
    }
}

/// After a line the rules are those before and the one that the line gives, and no
/// others.
pub proof fn law_line_rules(
    rules: Rules,
    line: Seq<char>,
    format: ListFormat,
    as_allow: bool,
    allow: bool,
    body: Body,
)
    ensures
        has_rule(blocklist::after_line(rules, line, format, as_allow), allow, body) <==> has_rule(
            rules,
            allow,
            body,
        ) || line_gives(line, format, as_allow, allow, body),
{
    let b = blocklist::line_body(line, format);
    law_with_rule(
        rules,
        blocklist::line_allows(line, format, as_allow),
        blocklist::lowered(b),
        allow,
        body,
    );
}

/// After a list the rules are those before and those that its lines give, each of
/// them, and no others.
pub proof fn law_list_rules(
    rules: Rules,
    lines: Seq<Seq<char>>,
    as_allow: bool,
    allow: bool,
    body: Body,
)
    ensures
        has_rule(blocklist::after_lines(rules, lines, as_allow), allow, body) <==> has_rule(
            rules,
            allow,
            body,
        ) || list_gives(lines, as_allow, allow, body),
    decreases lines.len(),
{
    if lines.len() > 0 {
        let front = lines.drop_last();
        let last = lines.last();
        law_list_rules(rules, front, as_allow, allow, body);
        law_line_rules(
            blocklist::after_lines(rules, front, as_allow),
            last,
            blocklist::auto_format(last),
            as_allow,
            allow,
            body,
        );
        if list_gives(front, as_allow, allow, body) {
            let k = choose|k: int|
                0 <= k < front.len() && line_gives(
                    #[trigger] front[k],
                    blocklist::auto_format(front[k]),
                    as_allow,
                    allow,
                    body,
                );
            assert(lines[k] == front[k]);
        }
        if line_gives(last, blocklist::auto_format(last), as_allow, allow, body) {
            assert(lines[lines.len() - 1] == last);
        }
        if list_gives(lines, as_allow, allow, body) {
            let k = choose|k: int|
                0 <= k < lines.len() && line_gives(
                    #[trigger] lines[k],
                    blocklist::auto_format(lines[k]),
                    as_allow,
                    allow,
                    body,
                );
            if k < front.len() {
                assert(front[k] == lines[k]);
            }
        }
    }
}

/// Merged rules are those of the one and those of the other.
pub proof fn law_merged_rules(a: Rules, b: Rules, allow: bool, body: Body)
    ensures
        has_rule(blocklist::merged(a, b), allow, body) <==> has_rule(a, allow, body) || has_rule(
            b,
            allow,
            body,
        ),
{
    if let Body::Pattern(p) = body {
        lemma_concat_contains(a.allow_patterns, b.allow_patterns, p);
        lemma_concat_contains(a.block_patterns, b.block_patterns, p);
    }
}

proof fn lemma_concat_contains(a: Seq<Seq<char>>, b: Seq<Seq<char>>, p: Seq<char>)
    ensures
        (a + b).contains(p) <==> a.contains(p) || b.contains(p),
{
    if a.contains(p) {
        assert((a + b)[a.index_of(p)] == p);
    }
    if b.contains(p) {
        assert((a + b)[a.len() + b.index_of(p)] == p);
    }
    if (a + b).contains(p) {
        let k = (a + b).index_of(p);
        if k < a.len() {
            assert(a[k] == p);
        } else {
            assert(b[k - a.len()] == p);
        }
    }
}

/// What speaks of a name: an exact rule for it, a rule for a domain that it is or
/// lies below, or a pattern that is found in it.
pub proof fn law_hits(rules: Rules, name: Seq<char>)
    ensures
        allow_hit(rules, name) <==> exists|body: Body| #[trigger]
            has_rule(rules, true, body) && speaks_of(body, name),
        block_hit(rules, name) <==> exists|body: Body| #[trigger]
            has_rule(rules, false, body) && speaks_of(body, name),
{
    lemma_hits(rules, true, name);
    lemma_hits(rules, false, name);
}

/// Whether a rule speaks of a name.
pub open spec fn speaks_of(body: Body, name: Seq<char>) -> bool {
    match body {
        Body::Nothing => false,
        Body::Exact(d) => name == d,
        Body::Suffix(d) => name == d || below(name, d),
        Body::Pattern(p) => pattern::regex_finds(p, name),
    }
}

proof fn lemma_hits(rules: Rules, allow: bool, name: Seq<char>)
    ensures
        (if allow {
            allow_hit(rules, name)
        } else {
            block_hit(rules, name)
        }) <==> exists|body: Body| #[trigger]
            has_rule(rules, allow, body) && speaks_of(body, name),
{
    let domains = if allow {
        rules.allow_domains
    } else {
        rules.block_domains
    };
    let suffixes = if allow {
        rules.allow_suffixes
    } else {
        rules.block_suffixes
    };
    let patterns = if allow {
        rules.allow_patterns
    } else {
        rules.block_patterns
    };
    law_suffix_covers(suffixes, name);
    if domains.contains(name) {
        assert(has_rule(rules, allow, Body::Exact(name)));
    }
    if blocklist::suffix_hit(suffixes, name) {
        let s = choose|s: Seq<char>| #[trigger]
            suffixes.contains(s) && (name == s || below(name, s));
        assert(has_rule(rules, allow, Body::Suffix(s)));
    }
    if pattern_hit(patterns, name) {
        let i = choose|i: int|
            0 <= i < patterns.len() && pattern::regex_finds(#[trigger] patterns[i], name);
        assert(patterns.contains(patterns[i]));
        assert(has_rule(rules, allow, Body::Pattern(patterns[i])));
    }
    if exists|body: Body| #[trigger] has_rule(rules, allow, body) && speaks_of(body, name) {
        let body = choose|body: Body| #[trigger]
            has_rule(rules, allow, body) && speaks_of(body, name);
        match body {
            Body::Suffix(d) => {
                assert(suffixes.contains(d));
            },
            Body::Pattern(p) => {
                let k = patterns.index_of(p);
                assert(pattern::regex_finds(patterns[k], name));
            },
            _ => {},
        }
    }
}

/// The rule that decides is named: of the kinds that speak of the domain the first
/// in the order exact, pattern, suffix for allow rules, and exact, suffix, pattern
/// for block rules; a pattern is the first that is found in the domain.
pub proof fn law_deciding_rule(rules: Rules, d: Seq<char>)
    ensures
        match blocklist::outcome(rules, d) {
            Outcome::Allowed(r) => {
                ||| rules.allow_domains.contains(d) && r == "allow:"@ + d
                ||| {
                    &&& !rules.allow_domains.contains(d)
                    &&& exists|i: int|
                        {
                            &&& 0 <= i < rules.allow_patterns.len()
                            &&& pattern::regex_finds(#[trigger] rules.allow_patterns[i], d)
                            &&& forall|j: int|
                                0 <= j < i ==> !pattern::regex_finds(
                                    #[trigger] rules.allow_patterns[j],
                                    d,
                                )
                            &&& r == "allow_regex:"@ + rules.allow_patterns[i]
                        }
                }
                ||| {
                    &&& !rules.allow_domains.contains(d)
                    &&& !pattern_hit(rules.allow_patterns, d)
                    &&& blocklist::suffix_hit(rules.allow_suffixes, d)
                    &&& r == "allow_suffix:"@ + d
                }
            },
            Outcome::Blocked(r) => {
                ||| rules.block_domains.contains(d) && r == "block:"@ + d
                ||| {
                    &&& !rules.block_domains.contains(d)
                    &&& blocklist::suffix_hit(rules.block_suffixes, d)
                    &&& r == "block_suffix:"@ + d
                }
                ||| {
                    &&& !rules.block_domains.contains(d)
                    &&& !blocklist::suffix_hit(rules.block_suffixes, d)
                    &&& exists|i: int|
                        {
                            &&& 0 <= i < rules.block_patterns.len()
                            &&& pattern::regex_finds(#[trigger] rules.block_patterns[i], d)
                            &&& forall|j: int|
                                0 <= j < i ==> !pattern::regex_finds(
                                    #[trigger] rules.block_patterns[j],
                                    d,
                                )
                            &&& r == "block_regex:"@ + rules.block_patterns[i]
                        }
                }
            },
            Outcome::Forwarded => true,
        },
{
    lemma_first_match_place(rules.allow_patterns, d);
    lemma_first_match_place(rules.block_patterns, d);
    lemma_first_match_hits(rules.allow_patterns, d);
}

proof fn lemma_first_match_place(patterns: Seq<Seq<char>>, d: Seq<char>)
    ensures
        blocklist::first_match(patterns, d) matches Some(p) ==> exists|i: int|
            {
                &&& 0 <= i < patterns.len()
                &&& pattern::regex_finds(#[trigger] patterns[i], d)
                &&& forall|j: int| 0 <= j < i ==> !pattern::regex_finds(#[trigger] patterns[j], d)
                &&& patterns[i] == p
            },
        blocklist::first_match(patterns, d) is None ==> forall|j: int|
            0 <= j < patterns.len() ==> !pattern::regex_finds(#[trigger] patterns[j], d),
    decreases patterns.len(),
{
    if patterns.len() > 0 {
        let front = patterns.drop_last();
        lemma_first_match_place(front, d);
        if let Some(p) = blocklist::first_match(front, d) {
            let i = choose|i: int|
                {
                    &&& 0 <= i < front.len()
                    &&& pattern::regex_finds(#[trigger] front[i], d)
                    &&& forall|j: int| 0 <= j < i ==> !pattern::regex_finds(#[trigger] front[j], d)
                    &&& front[i] == p
                };
            assert(patterns[i] == front[i]);
            assert forall|j: int| 0 <= j < i implies !pattern::regex_finds(
                #[trigger] patterns[j],
                d,
            ) by {
                assert(front[j] == patterns[j]);
            }
        } else {
            assert forall|j: int| 0 <= j < front.len() implies !pattern::regex_finds(
                #[trigger] patterns[j],
                d,
            ) by {
                assert(front[j] == patterns[j]);
            }
            if pattern::regex_finds(patterns.last(), d) {
                assert(pattern::regex_finds(patterns[patterns.len() - 1], d));
            }
        }
    }
}

// ---------------------------------------------------------------------------
// How lines are written
// ---------------------------------------------------------------------------

/// White space around a line makes no difference.
pub proof fn law_space_around_line(
    before: Seq<char>,
    line: Seq<char>,
    behind: Seq<char>,
    format: ListFormat,
    as_allow: bool,
)
    requires
        text::all_white(before),
        text::all_white(behind),
    ensures
        ({
            let spaced = before + line + behind;
            &&& blocklist::line_body(spaced, format) == blocklist::line_body(line, format)
            &&& blocklist::line_allows(spaced, format, as_allow) == blocklist::line_allows(
                line,
                format,
                as_allow,
            )
            &&& blocklist::auto_format(spaced) == blocklist::auto_format(line)
            &&& blocklist::lone_slash(spaced) == blocklist::lone_slash(line)
        }),
{
    text::law_trimmed_again(before, line, behind);
}

/// A word that can stand in a hosts file: not empty, without white space and `#`.
pub open spec fn plain_word(d: Seq<char>) -> bool {
    d.len() > 0 && text::no_white(d) && text::free_of(d, '#')
}

proof fn lemma_tight_trimmed(s: Seq<char>)
    requires
        text::tight(s),
    ensures
        text::trimmed(s) == s,
{
    let none = Seq::<char>::empty();
    text::law_trimmed(none, s, none);
    assert(none + s + none =~= s);
}

/// A domain alone on its line is an exact rule, in every format, and the line is
/// taken for one of a hosts file.
pub proof fn law_plain_line(d: Seq<char>, format: ListFormat)
    requires
        plain_word(d),
        d.last() != '.',
        d[0] != '!' && d[0] != '|' && d[0] != '@' && d[0] != '/',
    ensures
        blocklist::line_body(d, format) == Body::Exact(d),
        blocklist::auto_format(d) == ListFormat::Hosts,
        !blocklist::line_allows(d, format, false),
{
    assert(text::tight(d)) by {
        assert(!text::is_white(d[0]) && !text::is_white(d[d.len() - 1]));
    }
    lemma_tight_trimmed(d);
    assert(d[0] != '#');
    lemma_no_marks(d);
    text::law_without_prefixes(d, blocklist::at_mark());
    lemma_cleaned_word(d);
}

proof fn lemma_no_marks(s: Seq<char>)
    requires
        s.len() > 0,
        s[0] != '|' && s[0] != '@',
    ensures
        !blocklist::at_mark().is_prefix_of(s),
        !blocklist::bar_mark().is_prefix_of(s),
{
    if blocklist::at_mark().is_prefix_of(s) {
        assert(s.subrange(0, 2)[0] == blocklist::at_mark()[0]);
    }
    if blocklist::bar_mark().is_prefix_of(s) {
        assert(s.subrange(0, 2)[0] == blocklist::bar_mark()[0]);
    }
}

proof fn lemma_cleaned_word(d: Seq<char>)
    requires
        plain_word(d),
        d.last() != '.',
    ensures
        blocklist::cleaned_domain(d) == Some(d),
{
    text::law_before(d, '#', Seq::empty());
    assert(text::tight(d)) by {
        assert(!text::is_white(d[0]) && !text::is_white(d[d.len() - 1]));
    }
    lemma_tight_trimmed(d);
    text::law_last_word(Seq::empty(), ' ', d);
    text::law_without_trailing(d, '.');
}

/// A line of a hosts file, an address and a domain with white space between them,
/// is an exact rule for the domain.
pub proof fn law_hosts_line(address: Seq<char>, space: char, d: Seq<char>, format: ListFormat)
    requires
        plain_word(address),
        plain_word(d),
        text::is_white(space),
        address[0] != '!' && address[0] != '|' && address[0] != '@' && address[0] != '/',
        d.last() != '.',
        !blocklist::is_adblock(format),
    ensures
        blocklist::line_body(address.push(space) + d, format) == Body::Exact(d),
        blocklist::auto_format(address.push(space) + d) == ListFormat::Hosts,
{
    let line = address.push(space) + d;
    assert(line[0] == address[0] && line.last() == d.last());
    assert(!text::is_white(address[0]) && !text::is_white(d[d.len() - 1]));
    assert(address[0] != '#');
    assert(text::free_of(line, '#')) by {
        assert forall|i: int| 0 <= i < line.len() implies #[trigger] line[i] != '#' by {
            if i < address.len() {
                assert(line[i] == address[i]);
            } else if i > address.len() {
                assert(line[i] == d[i - address.len() - 1]);
            }
        }
    }
    lemma_tight_trimmed(line);
    lemma_no_marks(line);
    text::law_before(line, '#', Seq::empty());
    text::law_last_word(address, space, d);
    text::law_without_trailing(d, '.');
}

/// A note behind a `#` makes no difference to a line of a hosts file.
pub proof fn law_note_ignored(line: Seq<char>, note: Seq<char>, format: ListFormat)
    requires
        text::free_of(line, '#'),
        !blocklist::is_comment(text::trimmed(line)),
        !blocklist::is_adblock(format),
    ensures
        blocklist::line_body(line.push('#') + note, format) == blocklist::line_body(line, format),
{
    let whole = line.push('#') + note;
    let none = Seq::<char>::empty();
    let (a, b) = text::lemma_trimmed_parts(line);
    let t = text::trimmed(line);
    // The part from the name to the last character of the note that is no space.
    let tail = seq!['#'] + note;
    let kept = text::trimmed(tail);
    let (f, g) = text::lemma_trimmed_parts(tail);
    if f.len() > 0 {
        assert(text::is_white(f[0]));
        assert(tail[0] == f[0]);
    }
    assert(f =~= none);
    assert(tail =~= kept + g);
    assert(kept.len() > 0) by {
        if kept.len() == 0 {
            assert(tail[0] == g[0]);
            assert(text::is_white(g[0]));
        }
    }
    assert(kept[0] == tail[0]);
    let middle = t + b + kept;
    assert(whole =~= a + middle + g) by {
        assert(line =~= a + t + b);
        assert(whole =~= line + tail);
    }
    assert(middle[0] == t[0] && middle.last() == kept.last());
    text::law_trimmed(a, middle, g);
    assert(text::trimmed(whole) == middle);
    let named = t + b;
    assert(text::free_of(named, '#')) by {
        assert forall|i: int| 0 <= i < named.len() implies #[trigger] named[i] != '#' by {
            assert(named[i] == line[a.len() + i]);
        }
    }
    let rest = kept.skip(1);
    assert(middle =~= named.push('#') + rest);
    text::law_before(named, '#', rest);
    assert(text::free_of(t, '#')) by {
        assert forall|i: int| 0 <= i < t.len() implies #[trigger] t[i] != '#' by {
            assert(t[i] == named[i]);
        }
    }
    text::law_before(t, '#', none);
    text::law_trimmed_again(none, t, b);
    assert(none + t + b =~= named);
    lemma_tight_trimmed(t);
}

/// A regular expression between slashes is a pattern rule, alone and as an
/// exception.
pub proof fn law_pattern_line(p: Seq<char>)
    ensures
        ({
            let line = seq!['/'] + p + seq!['/'];
            &&& blocklist::line_body(line, ListFormat::AdBlock) == Body::Pattern(p)
            &&& blocklist::auto_format(line) == ListFormat::AdBlock
            &&& !blocklist::line_allows(line, ListFormat::AdBlock, false)
            &&& !blocklist::lone_slash(line)
            &&& blocklist::line_body(blocklist::at_mark() + line, ListFormat::AdBlock)
                == Body::Pattern(p)
            &&& blocklist::line_allows(blocklist::at_mark() + line, ListFormat::AdBlock, false)
            &&& blocklist::auto_format(blocklist::at_mark() + line) == ListFormat::AdBlock
        }),
{
    let line = seq!['/'] + p + seq!['/'];
    let ats = blocklist::at_mark();
    assert(line[0] == '/' && line.last() == '/');
    lemma_tight_trimmed(line);
    lemma_no_marks(line);
    text::law_without_prefixes(line, ats);
    assert(line.subrange(1, line.len() - 1) =~= p);
    let marked = ats + line;
    assert(marked[0] == '@' && marked.last() == '/');
    lemma_tight_trimmed(marked);
    assert(marked.subrange(0, 2) =~= ats);
}

/// An exception in the AdBlock syntax allows what the same line without its mark
/// blocks.
pub proof fn law_exception_mark(line: Seq<char>)
    requires
        text::tight(line),
        line.len() > 0,
        !blocklist::is_comment(line),
    ensures
        ({
            let marked = blocklist::at_mark() + line;
            &&& blocklist::line_body(marked, ListFormat::AdBlock) == blocklist::line_body(
                line,
                ListFormat::AdBlock,
            )
            &&& blocklist::line_allows(marked, ListFormat::AdBlock, false)
            &&& blocklist::auto_format(marked) == ListFormat::AdBlock
        }),
{
    let ats = blocklist::at_mark();
    let marked = ats + line;
    assert(marked[0] == '@' && marked.last() == line.last());
    lemma_tight_trimmed(marked);
    lemma_tight_trimmed(line);
    assert(marked.subrange(0, 2) =~= ats);
    text::law_without_prefixes(line, ats);
}

// ---------------------------------------------------------------------------
// Reading that stops
// ---------------------------------------------------------------------------

/// Whether a line can be taken: it is no lone slash in a format where that opens a
/// pattern, and its pattern, where it has one, compiles.
pub open spec fn readable(line: Seq<char>, format: Option<ListFormat>) -> bool {
    let f = blocklist::chosen_format(format, line);
    &&& !(blocklist::is_adblock(f) && blocklist::lone_slash(line))
    &&& blocklist::line_body(line, f) matches Body::Pattern(p) ==> pattern::regex_takes(p)
}

/// Reading a text takes its lines up to the first that cannot be taken, and tells
/// of that one; of lines that can all be taken it takes all.
pub proof fn law_content(
    rules: Rules,
    lines: Seq<Seq<char>>,
    format: Option<ListFormat>,
    allow: bool,
    body: Body,
) -> (k: int)
    ensures
        0 <= k <= lines.len(),
        forall|i: int| 0 <= i < k ==> readable(#[trigger] lines[i], format),
        k < lines.len() ==> !readable(lines[k], format),
        blocklist::after_content(rules, lines, format).1 is Done <==> k == lines.len(),
        blocklist::after_content(rules, lines, format).1 matches Reading::Refused(p) ==> k
            < lines.len() && blocklist::line_body(
            lines[k],
            blocklist::chosen_format(format, lines[k]),
        ) == Body::Pattern(p) && !pattern::regex_takes(p),
        blocklist::after_content(rules, lines, format).1 is Stuck ==> k < lines.len()
            && blocklist::lone_slash(lines[k]),
        has_rule(blocklist::after_content(rules, lines, format).0, allow, body) <==> has_rule(
            rules,
            allow,
            body,
        ) || exists|i: int|
            0 <= i < k && line_gives(
                #[trigger] lines[i],
                blocklist::chosen_format(format, lines[i]),
                false,
                allow,
                body,
            ),
    decreases lines.len(),
{
    if lines.len() == 0 {
        0
    } else {
        let front = lines.drop_last();
        let last = lines.last();
        let n = front.len() as int;
        let f = blocklist::chosen_format(format, last);
        let j = law_content(rules, front, format, allow, body);
        assert forall|i: int| 0 <= i < j implies readable(#[trigger] lines[i], format) by {
            assert(front[i] == lines[i]);
        }
        let (before, reading) = blocklist::after_content(rules, front, format);
        let k = if j == n && readable(last, format) {
            n + 1
        } else {
            j
        };
        if j < n {
            assert(lines[j] == front[j]);
        } else {
            assert(lines[j] == last);
        }
        law_line_rules(before, last, f, false, allow, body);
        if exists|i: int|
            0 <= i < j && line_gives(
                #[trigger] front[i],
                blocklist::chosen_format(format, front[i]),
                false,
                allow,
                body,
            ) {
            let i = choose|i: int|
                0 <= i < j && line_gives(
                    #[trigger] front[i],
                    blocklist::chosen_format(format, front[i]),
                    false,
                    allow,
                    body,
                );
            assert(lines[i] == front[i]);
        }
        if exists|i: int|
            0 <= i < k && line_gives(
                #[trigger] lines[i],
                blocklist::chosen_format(format, lines[i]),
                false,
                allow,
                body,
            ) {
            let i = choose|i: int|
                0 <= i < k && line_gives(
                    #[trigger] lines[i],
                    blocklist::chosen_format(format, lines[i]),
                    false,
                    allow,
                    body,
                );
            if i < j {
                assert(front[i] == lines[i]);
            }
        }
        k
    }
}

/// A list in the AdGuard syntax is read as one in the AdBlock syntax, and a list in
/// the syntax of Pi-hole as a hosts file.
pub proof fn law_formats_alike(line: Seq<char>, as_allow: bool)
    ensures
        blocklist::line_body(line, ListFormat::AdGuard) == blocklist::line_body(
            line,
            ListFormat::AdBlock,
        ),
        blocklist::line_allows(line, ListFormat::AdGuard, as_allow) == blocklist::line_allows(
            line,
            ListFormat::AdBlock,
            as_allow,
        ),
        blocklist::line_body(line, ListFormat::PiHole) == blocklist::line_body(
            line,
            ListFormat::Hosts,
        ),
        blocklist::line_allows(line, ListFormat::PiHole, as_allow) == as_allow,
        blocklist::line_allows(line, ListFormat::Hosts, as_allow) == as_allow,
{
}

/// A run of one character.
pub open spec fn run_of(c: char, n: nat) -> Seq<char> {
    Seq::new(n, |i: int| c)
}

proof fn lemma_run_taken(s: Seq<char>, c: char, n: nat)
    ensures
        text::without_trailing(s + run_of(c, n), c) == text::without_trailing(s, c),
    decreases n,
{
    if n == 0 {
        assert(s + run_of(c, n) =~= s);
    } else {
        lemma_run_taken(s, c, (n - 1) as nat);
        assert(s + run_of(c, n) =~= (s + run_of(c, (n - 1) as nat)).push(c));
        text::law_without_trailing(s + run_of(c, (n - 1) as nat), c);
    }
}

/// Behind the mark `||` a rule may end in any number of `^`, and the domain before them
/// in any number of dots: neither is part of the domain.
pub proof fn law_suffix_line(d: Seq<char>, dots: nat, carets: nat)
    requires
        plain_domain(d),
        !text::is_white(d.last()),
    ensures
        ({
            let line = blocklist::bar_mark() + d + run_of('.', dots) + run_of('^', carets);
            &&& blocklist::line_body(line, ListFormat::AdBlock) == Body::Suffix(d)
            &&& blocklist::auto_format(line) == ListFormat::AdBlock
            &&& !blocklist::line_allows(line, ListFormat::AdBlock, false)
        }),
{
    let bars = blocklist::bar_mark();
    let ats = blocklist::at_mark();
    let dotted = d + run_of('.', dots);
    let tail = dotted + run_of('^', carets);
    let line = bars + d + run_of('.', dots) + run_of('^', carets);
    assert(line =~= bars + tail);
    assert(line[0] == '|');
    assert(tail[0] == d[0]);
    assert(!text::is_white(line.last())) by {
        if carets > 0 {
            assert(line.last() == '^');
        } else if dots > 0 {
            assert(line.last() == '.');
        } else {
            assert(line.last() == d.last());
        }
    }
    lemma_tight_trimmed(line);
    assert(bars.is_prefix_of(line)) by {
        assert(line.subrange(0, 2) =~= bars);
    }
    assert(!ats.is_prefix_of(line)) by {
        if ats.is_prefix_of(line) {
            assert(line.subrange(0, 2)[0] == ats[0]);
        }
    }
    text::law_without_prefixes(line, ats);
    text::law_without_prefixes(tail, bars);
    assert(!bars.is_prefix_of(tail)) by {
        if bars.is_prefix_of(tail) {
            assert(tail.subrange(0, 2)[0] == bars[0]);
        }
    }
    lemma_run_taken(dotted, '^', carets);
    text::law_without_trailing(dotted, '^');
    assert(dotted.last() != '^') by {
        if dots > 0 {
            assert(dotted.last() == '.');
        } else {
            assert(dotted.last() == d.last());
        }
    }
    lemma_run_taken(d, '.', dots);
    text::law_without_trailing(d, '.');
}

/// Dots at the end of a domain alone on its line are not part of the domain.
pub proof fn law_trailing_dots(d: Seq<char>, dots: nat, format: ListFormat)
    requires
        plain_word(d),
        d.last() != '.',
        d[0] != '!' && d[0] != '|' && d[0] != '@' && d[0] != '/',
    ensures
        blocklist::line_body(d + run_of('.', dots), format) == Body::Exact(d),
{
    let line = d + run_of('.', dots);
    assert(line[0] == d[0]);
    assert(text::no_white(line) && text::free_of(line, '#')) by {
        assert forall|i: int| 0 <= i < line.len() implies !text::is_white(#[trigger] line[i])
            && line[i] != '#' by {
            if i < d.len() {
                assert(line[i] == d[i]);
            } else {
                assert(line[i] == '.');
            }
        }
    }
    assert(!text::is_white(line[0]) && !text::is_white(line[line.len() - 1]));
    assert(d[0] != '#');
    lemma_tight_trimmed(line);
    lemma_no_marks(line);
    text::law_without_prefixes(line, blocklist::at_mark());
    text::law_before(line, '#', Seq::empty());
    text::law_last_word(Seq::empty(), ' ', line);
    lemma_run_taken(d, '.', dots);
    text::law_without_trailing(d, '.');
}

/// A lone slash is a slash, perhaps behind exception marks and with space around it, and
/// nothing else is one.
pub proof fn law_lone_slash(line: Seq<char>)
    requires
        text::tight(line),
        line.len() > 0,
    ensures
        blocklist::lone_slash(seq!['/']),
        line[0] != '@' ==> (blocklist::lone_slash(line) <==> line == seq!['/']),
        blocklist::lone_slash(blocklist::at_mark() + line) <==> blocklist::lone_slash(line),
{
    let ats = blocklist::at_mark();
    let slash = seq!['/'];
    let marked = ats + line;
    lemma_tight_trimmed(slash);
    lemma_tight_trimmed(line);
    assert(marked[0] == '@' && marked.last() == line.last());
    lemma_tight_trimmed(marked);
    text::law_without_prefixes(line, ats);
    if line[0] != '@' {
        if ats.is_prefix_of(line) {
            assert(line.subrange(0, 2)[0] == ats[0]);
        }
    }
}

/// The domain that a line of a hosts file names is its last word without trailing dots,
/// whatever stands before it and whatever note stands behind it; a line of white space
/// alone names none, and neither does one whose last word is dots alone.
pub proof fn law_named_domain(
    head: Seq<char>,
    space: char,
    d: Seq<char>,
    dots: nat,
    tail: Seq<char>,
    note: Seq<char>,
)
    requires
        text::free_of(head, '#'),
        text::is_white(space),
        text::no_white(d),
        text::free_of(d, '#'),
        d.len() > 0 ==> d.last() != '.',
        d.len() + dots > 0,
        text::all_white(tail),
        text::all_white(head) || !text::is_white(head[0]),
    ensures
        ({
            let line = head.push(space) + d + run_of('.', dots) + tail;
            let named = if d.len() > 0 {
                Some(d)
            } else {
                None
            };
            &&& blocklist::cleaned_domain(line) == named
            &&& blocklist::cleaned_domain(line.push('#') + note) == named
        }),
        blocklist::cleaned_domain(tail) is None,
        blocklist::cleaned_domain(tail.push('#') + note) is None,
{
    let none = Seq::<char>::empty();
    let word = d + run_of('.', dots);
    let line = head.push(space) + d + run_of('.', dots) + tail;
    let core = head.push(space) + word;
    assert(line =~= core + tail);
    assert(text::free_of(tail, '#')) by {
        assert forall|i: int| 0 <= i < tail.len() implies #[trigger] tail[i] != '#' by {
            assert(text::is_white(tail[i]));
        }
    }
    assert(text::free_of(line, '#')) by {
        assert forall|i: int| 0 <= i < line.len() implies #[trigger] line[i] != '#' by {
            let h = head.len() as int;
            let w = d.len() as int;
            if i < h {
                assert(line[i] == head[i]);
            } else if i == h {
                assert(line[i] == space);
            } else if i < h + 1 + w {
                assert(line[i] == d[i - h - 1]);
            } else if i < h + 1 + w + dots {
                assert(line[i] == '.');
            } else {
                assert(line[i] == tail[i - h - 1 - w - dots]);
            }
        }
    }
    assert(text::no_white(word)) by {
        assert forall|i: int| 0 <= i < word.len() implies !text::is_white(#[trigger] word[i]) by {
            if i < d.len() {
                assert(word[i] == d[i]);
            } else {
                assert(word[i] == '.');
            }
        }
    }
    text::law_before(line, '#', none);
    text::law_before(line, '#', note);
    text::law_before(tail, '#', none);
    text::law_before(tail, '#', note);
    text::law_trimmed(none, none, tail);
    assert(none + none + tail =~= tail);
    assert(!text::is_white(word[0]) && !text::is_white(word[word.len() - 1]));
    let kept = text::trimmed(line);
    if text::all_white(head) {
        let before = head.push(space);
        assert forall|i: int| 0 <= i < before.len() implies text::is_white(
            #[trigger] before[i],
        ) by {
            if i < head.len() {
                assert(before[i] == head[i]);
            }
        }
        text::law_trimmed(before, word, tail);
        assert(line =~= before + word + tail);
        text::law_last_word(none, ' ', word);
        assert(kept == word);
    } else {
        assert(core[0] == head[0] && core.last() == word.last());
        text::law_trimmed(none, core, tail);
        assert(none + core + tail =~= line);
        text::law_last_word(head, space, word);
        assert(kept == core);
    }
    lemma_run_taken(d, '.', dots);
    text::law_without_trailing(d, '.');
}

/// A line is refused exactly where it holds a pattern that does not compile, and the
/// refusal names that pattern.
pub proof fn law_line_result(r: Result<(), RuleError>, line: Seq<char>, format: ListFormat)
    requires
        blocklist::line_result(r, blocklist::line_body(line, format)),
    ensures
        match blocklist::line_body(line, format) {
            Body::Pattern(p) => {
                &&& pattern::regex_takes(p) ==> r is Ok
                &&& !pattern::regex_takes(p) ==> (r matches Err(RuleError::InvalidPattern(s))
                    && s@ == p)
            },
            _ => r is Ok,
        },
{
}

/// Without rules no rule is there, and every name is put to upstream.
pub proof fn law_no_rules(name: Seq<char>, allow: bool, body: Body)
    ensures
        !has_rule(blocklist::no_rules(), allow, body),
        blocklist::outcome(blocklist::no_rules(), name) is Forwarded,
{
    law_outcome(blocklist::no_rules(), name);
}

} // verus!
