//! Rules: how lists are read into them, and what they say of a domain.
//!
//! A rule allows or blocks, and comes in three shapes: one exact domain, a
//! domain with everything below it, or a regular expression. Allow rules win.
use vstd::prelude::*;
use vstd::hash_map::StringHashMap;
use vstd::slice::slice_subrange;
use crate::pattern;
use crate::pattern::Pattern;
use crate::text;

verus! {

// ---------------------------------------------------------------------------
// Sets of domains
// ---------------------------------------------------------------------------

/// A set of domain names.
pub struct DomainSet {
    entries: StringHashMap<()>,
}

impl View for DomainSet {
    type V = Set<Seq<char>>;

    closed spec fn view(&self) -> Set<Seq<char>> {
        self.entries@.dom()
    }
}

impl DomainSet {
    /// The empty set.
    pub fn new() -> (r: Self)
        ensures
            r@ == Set::<Seq<char>>::empty(),
    {
        let r = DomainSet { entries: StringHashMap::new() };
        assert(r@ =~= Set::<Seq<char>>::empty());
        r
    }

    /// Adds a domain.
    pub fn insert(&mut self, domain: String)
        ensures
            final(self)@ == old(self)@.insert(domain@),
    {
        let ghost before = self.entries@;
        let ghost d = domain@;
        self.entries.insert(domain, ());
        assert(self.entries@.dom() =~= before.dom().insert(d));
    }

    /// Whether the set holds the domain.
    pub fn contains(&self, domain: &str) -> (r: bool)
        ensures
            r == self@.contains(domain@),
    {
        self.entries.contains_key(domain)
    }

    /// The number of domains.
    pub fn len(&self) -> (r: usize)
        ensures
            r == self@.len(),
    {
        self.entries.len()
    }

    /// Removes every domain.
    pub fn clear(&mut self)
        ensures
            final(self)@ == Set::<Seq<char>>::empty(),
    {
        self.entries.clear();
        assert(self.entries@.dom() =~= Set::<Seq<char>>::empty());
    }

    /// Adds every domain of `other`.
    pub fn extend(&mut self, other: DomainSet)
        ensures
            final(self)@ == old(self)@.union(other@),
    {
        let ghost before = self.entries@;
        let ghost more = other.entries@;
        self.entries.union_prefer_right(other.entries);
        assert(self.entries@.dom() =~= before.dom().union(more.dom()));
    }
}

// ---------------------------------------------------------------------------
// The rules
// ---------------------------------------------------------------------------

/// All rules in force.
pub struct Blocklist {
    pub allow_domains: DomainSet,
    pub block_domains: DomainSet,
    pub allow_suffixes: DomainSet,
    pub block_suffixes: DomainSet,
    pub allow_regex: Vec<Pattern>,
    pub block_regex: Vec<Pattern>,
}

/// All rules in force, as a mathematical value; patterns by their source.
#[verifier::ext_equal]
pub struct Rules {
    pub allow_domains: Set<Seq<char>>,
    pub block_domains: Set<Seq<char>>,
    pub allow_suffixes: Set<Seq<char>>,
    pub block_suffixes: Set<Seq<char>>,
    pub allow_patterns: Seq<Seq<char>>,
    pub block_patterns: Seq<Seq<char>>,
}

/// Sources of patterns.
pub open spec fn sources(v: Seq<Pattern>) -> Seq<Seq<char>> {
    v.map_values(|p: Pattern| p@)
}

impl View for Blocklist {
    type V = Rules;

    open spec fn view(&self) -> Rules {
        Rules {
            allow_domains: self.allow_domains@,
            block_domains: self.block_domains@,
            allow_suffixes: self.allow_suffixes@,
            block_suffixes: self.block_suffixes@,
            allow_patterns: sources(self.allow_regex@),
            block_patterns: sources(self.block_regex@),
        }
    }
}

/// No rules.
pub open spec fn no_rules() -> Rules {
    Rules {
        allow_domains: Set::empty(),
        block_domains: Set::empty(),
        allow_suffixes: Set::empty(),
        block_suffixes: Set::empty(),
        allow_patterns: Seq::empty(),
        block_patterns: Seq::empty(),
    }
}

/// The format of a list.
#[derive(Debug, Clone, Copy, PartialEq, Eq, Structural)]
pub enum ListFormat {
    Hosts,
    AdBlock,
    PiHole,
    AdGuard,
}

/// Why a line could not be taken.
#[derive(Debug, PartialEq, Eq)]
pub enum RuleError {
    /// The line holds this pattern, which is not a regular expression.
    InvalidPattern(String),
}

/// What a line asks for, before names are put in lowercase and patterns are
/// compiled.
#[derive(Debug, PartialEq, Eq)]
pub enum RuleBody {
    /// A blank line, a comment, or a line that names nothing.
    Nothing,
    /// One domain.
    Exact(String),
    /// A domain and everything below it.
    Suffix(String),
    /// A regular expression.
    Pattern(String),
}

/// A line's rule: whether it allows, and what it names.
#[derive(Debug, PartialEq, Eq)]
pub struct LineRule {
    pub allow: bool,
    pub body: RuleBody,
}

/// `RuleBody` as a mathematical value.
pub enum Body {
    Nothing,
    Exact(Seq<char>),
    Suffix(Seq<char>),
    Pattern(Seq<char>),
}

impl View for RuleBody {
    type V = Body;

    open spec fn view(&self) -> Body {
        match self {
            RuleBody::Nothing => Body::Nothing,
            RuleBody::Exact(s) => Body::Exact(s@),
            RuleBody::Suffix(s) => Body::Suffix(s@),
            RuleBody::Pattern(s) => Body::Pattern(s@),
        }
    }
}

// ---------------------------------------------------------------------------
// Reading a line
// ---------------------------------------------------------------------------

/// The domain that a hosts line or a plain line names: the last word before a
/// `#`, without trailing dots.
pub open spec fn cleaned_domain(s: Seq<char>) -> Option<Seq<char>> {
    let d = text::trimmed(text::before(s, '#'));
    let word = text::without_trailing(text::last_word(d), '.');
    if d.len() == 0 || word.len() == 0 {
        None
    } else {
        Some(word)
    }
}

/// Whether a trimmed line is blank or a comment.
pub open spec fn is_comment(l: Seq<char>) -> bool {
    l.len() == 0 || l[0] == '!' || l[0] == '#'
}

/// The mark of an exception rule.
pub open spec fn at_mark() -> Seq<char> {
    seq!['@', '@']
}

/// The mark of a rule for a domain and everything below it.
pub open spec fn bar_mark() -> Seq<char> {
    seq!['|', '|']
}

/// A trimmed line without the marks of an exception rule.
pub open spec fn rule_part(l: Seq<char>) -> Seq<char> {
    text::without_prefixes(l, at_mark())
}

/// Whether a line is a lone slash once space and exception marks are removed.
/// It opens a regular expression and does not close it.
pub open spec fn lone_slash(line: Seq<char>) -> bool {
    rule_part(text::trimmed(line)) == seq!['/']
}

/// Whether a format has the AdBlock syntax.
pub open spec fn is_adblock(format: ListFormat) -> bool {
    format == ListFormat::AdBlock || format == ListFormat::AdGuard
}

/// Whether a text stands between slashes.
pub open spec fn between_slashes(p: Seq<char>) -> bool {
    p.len() > 0 && p[0] == '/' && p.last() == '/'
}

/// What the part of an AdBlock line behind its exception marks names.
pub open spec fn adblock_body(p: Seq<char>) -> Body {
    if bar_mark().is_prefix_of(p) {
        Body::Suffix(
            text::without_trailing(
                text::without_trailing(text::without_prefixes(p, bar_mark()), '^'),
                '.',
            ),
        )
    } else if between_slashes(p) {
        Body::Pattern(p.subrange(1, p.len() - 1))
    } else {
        exact_body(p)
    }
}

/// What a line names that holds at most one domain.
pub open spec fn exact_body(p: Seq<char>) -> Body {
    match cleaned_domain(p) {
        Some(d) => Body::Exact(d),
        None => Body::Nothing,
    }
}

/// What a line names.
pub open spec fn line_body(line: Seq<char>, format: ListFormat) -> Body {
    let l = text::trimmed(line);
    if is_comment(l) {
        Body::Nothing
    } else if is_adblock(format) {
        adblock_body(rule_part(l))
    } else {
        exact_body(l)
    }
}

/// Whether a line allows: because the whole list does, or because it is an
/// exception.
pub open spec fn line_allows(line: Seq<char>, format: ListFormat, as_allow: bool) -> bool {
    as_allow || (is_adblock(format) && at_mark().is_prefix_of(text::trimmed(line)))
}

/// The format that a line shows it is in.
pub open spec fn auto_format(line: Seq<char>) -> ListFormat {
    let l = text::trimmed(line);
    if bar_mark().is_prefix_of(l) || at_mark().is_prefix_of(l) || between_slashes(l) {
        ListFormat::AdBlock
    } else {
        ListFormat::Hosts
    }
}

/// The domain that a hosts line or a plain line names.
fn clean_domain(domain: &[char]) -> (r: Option<String>)
    ensures
        match r {
            Some(d) => cleaned_domain(domain@) == Some(d@),
            None => cleaned_domain(domain@) is None,
        },
{
    let d = text::trim(text::take_before(domain, '#'));
    if d.is_empty() {
        return None;
    }
    let word = text::trim_end_char(text::take_last_word(d), '.');
    if word.is_empty() {
        None
    } else {
        Some(text::text_of(word))
    }
}

/// What a line names that holds at most one domain.
fn read_exact_rule(p: &[char]) -> (r: RuleBody)
    ensures
        r@ == exact_body(p@),
{
    match clean_domain(p) {
        Some(d) => RuleBody::Exact(d),
        None => RuleBody::Nothing,
    }
}

/// What the part of an AdBlock line behind its exception marks names.
fn read_adblock_rule(p: &[char]) -> (r: RuleBody)
    requires
        p@ != seq!['/'],
    ensures
        r@ == adblock_body(p@),
{
    let bars: [char; 2] = ['|', '|'];
    assert(bars@ =~= bar_mark());
    let len: usize = p.len();
    if text::starts_with(p, &bars) {
        let d = text::trim_start_text(p, &bars);
        let d = text::trim_end_char(text::trim_end_char(d, '^'), '.');
        RuleBody::Suffix(text::text_of(d))
    } else if len > 0 && p[0] == '/' && p[len - 1] == '/' {
        assert(len == 1 ==> p@ =~= seq!['/']);
        RuleBody::Pattern(text::text_of(slice_subrange(p, 1, len - 1)))
    } else {
        read_exact_rule(p)
    }
}

/// The rule of a line. When `as_allow` is true every rule allows, whether or
/// not it is marked as an exception.
pub fn read_rule(line: &str, format: ListFormat, as_allow: bool) -> (r: LineRule)
    requires
        is_adblock(format) ==> !lone_slash(line@),
    ensures
        r.body@ == line_body(line@, format),
        r.allow == line_allows(line@, format, as_allow),
{
    let chars = text::chars_of(line);
    let l = text::trim(&chars);
    let ats: [char; 2] = ['@', '@'];
    assert(ats@ =~= at_mark());
    let adblock = match format {
        ListFormat::AdBlock | ListFormat::AdGuard => true,
        ListFormat::Hosts | ListFormat::PiHole => false,
    };
    let allow = as_allow || (adblock && text::starts_with(l, &ats));
    if l.is_empty() || l[0] == '!' || l[0] == '#' {
        return LineRule { allow, body: RuleBody::Nothing };
    }
    let body = if adblock {
        read_adblock_rule(text::trim_start_text(l, &ats))
    } else {
        read_exact_rule(l)
    };
    LineRule { allow, body }
}

/// The format that a line shows it is in.
pub fn detect_format(line: &str) -> (r: ListFormat)
    ensures
        r == auto_format(line@),
{
    let chars = text::chars_of(line);
    let l = text::trim(&chars);
    let len: usize = l.len();
    let ats: [char; 2] = ['@', '@'];
    let bars: [char; 2] = ['|', '|'];
    assert(ats@ =~= at_mark());
    assert(bars@ =~= bar_mark());
    if text::starts_with(l, &bars) || text::starts_with(l, &ats) || (len > 0 && l[0] == '/' && l[len
        - 1] == '/') {
        ListFormat::AdBlock
    } else {
        ListFormat::Hosts
    }
}

/// Whether a line is a lone slash.
pub fn is_lone_slash(line: &str) -> (r: bool)
    ensures
        r == lone_slash(line@),
{
    let chars = text::chars_of(line);
    let l = text::trim(&chars);
    let ats: [char; 2] = ['@', '@'];
    assert(ats@ =~= at_mark());
    let p = text::trim_start_text(l, &ats);
    let r = p.len() == 1 && p[0] == '/';
    assert(r == (p@ =~= seq!['/']));
    r
}

// ---------------------------------------------------------------------------
// Adding rules
// ---------------------------------------------------------------------------

/// The rules with one more. Names are taken as they stand; a domain rule
/// without a name adds nothing.
pub open spec fn with_rule(rules: Rules, allow: bool, body: Body) -> Rules {
    match body {
        Body::Nothing => rules,
        Body::Exact(d) => if allow {
            Rules { allow_domains: rules.allow_domains.insert(d), ..rules }
        } else {
            Rules { block_domains: rules.block_domains.insert(d), ..rules }
        },
        Body::Suffix(d) => if d.len() == 0 {
            rules
        } else if allow {
            Rules { allow_suffixes: rules.allow_suffixes.insert(d), ..rules }
        } else {
            Rules { block_suffixes: rules.block_suffixes.insert(d), ..rules }
        },
        Body::Pattern(p) => if allow {
            Rules { allow_patterns: rules.allow_patterns.push(p), ..rules }
        } else {
            Rules { block_patterns: rules.block_patterns.push(p), ..rules }
        },
    }
}

/// A rule with its domain in lowercase.
pub open spec fn lowered(body: Body) -> Body {
    match body {
        Body::Exact(d) => Body::Exact(text::lowercase(d)),
        Body::Suffix(d) => Body::Suffix(text::lowercase(d)),
        other => other,
    }
}

/// Whether a rule can be taken: every rule but a pattern that does not compile.
pub open spec fn acceptable(body: Body) -> bool {
    body matches Body::Pattern(p) ==> pattern::regex_takes(p)
}

/// The rules after a line in the given format.
pub open spec fn after_line(
    rules: Rules,
    line: Seq<char>,
    format: ListFormat,
    as_allow: bool,
) -> Rules {
    let body = line_body(line, format);
    if acceptable(body) {
        with_rule(rules, line_allows(line, format, as_allow), lowered(body))
    } else {
        rules
    }
}

/// The rules after a line whose format is detected.
pub open spec fn after_auto(rules: Rules, line: Seq<char>, as_allow: bool) -> Rules {
    after_line(rules, line, auto_format(line), as_allow)
}

/// Whether a name is in one of the sets of domains after, and in the same set it
/// was not before.
pub open spec fn added(before: Rules, after: Rules, d: Seq<char>) -> bool {
    ||| after.allow_domains.contains(d) && !before.allow_domains.contains(d)
    ||| after.block_domains.contains(d) && !before.block_domains.contains(d)
    ||| after.allow_suffixes.contains(d) && !before.allow_suffixes.contains(d)
    ||| after.block_suffixes.contains(d) && !before.block_suffixes.contains(d)
}

/// A name that is not empty and does not end in a dot.
pub open spec fn clean_name(d: Seq<char>) -> bool {
    d.len() > 0 && d.last() != '.'
}

/// Whether every name that was added is not empty and does not end in a dot.
pub open spec fn adds_clean_names(before: Rules, after: Rules) -> bool {
    forall|d: Seq<char>| #[trigger] added(before, after, d) ==> clean_name(d)
}

/// Whether the domain that a rule names, where it names one, does not end in a
/// dot, and is not empty in an exact rule.
pub open spec fn names_cleanly(body: Body) -> bool {
    match body {
        Body::Exact(d) => clean_name(d),
        Body::Suffix(d) => d.len() == 0 || clean_name(d),
        _ => true,
    }
}

/// The domain that a line names does not end in a dot, and is not empty in an
/// exact rule.
pub proof fn lemma_line_names_cleanly(line: Seq<char>, format: ListFormat)
    ensures
        names_cleanly(line_body(line, format)),
{
    let l = text::trimmed(line);
    let p = rule_part(l);
    lemma_cleaned_domain(l);
    lemma_cleaned_domain(p);
    text::lemma_without_trailing(
        text::without_trailing(text::without_prefixes(p, bar_mark()), '^'),
        '.',
    );
}

proof fn lemma_cleaned_domain(s: Seq<char>)
    ensures
        cleaned_domain(s) matches Some(d) ==> clean_name(d),
{
    text::lemma_without_trailing(text::last_word(text::trimmed(text::before(s, '#'))), '.');
}

/// The result of reading a line: an error that names the pattern exactly where
/// the line holds a pattern that does not compile.
pub open spec fn line_result(r: Result<(), RuleError>, body: Body) -> bool {
    if acceptable(body) {
        r is Ok
    } else {
        &&& r matches Err(RuleError::InvalidPattern(s))
        &&& body == Body::Pattern(s@)
    }
}

impl Blocklist {
    /// The domain that a hosts line or a plain line names: the last word before
    /// a `#`, without trailing dots.
    pub fn clean_domain_static(domain: &str) -> (r: Option<String>)
        ensures
            match r {
                Some(d) => cleaned_domain(domain@) == Some(d@),
                None => cleaned_domain(domain@) is None,
            },
    {
        let chars = text::chars_of(domain);
        clean_domain(&chars)
    }

    /// No rules.
    pub fn new() -> (r: Self)
        ensures
            r@ == no_rules(),
    {
        let r = Blocklist {
            allow_domains: DomainSet::new(),
            block_domains: DomainSet::new(),
            allow_suffixes: DomainSet::new(),
            block_suffixes: DomainSet::new(),
            allow_regex: Vec::new(),
            block_regex: Vec::new(),
        };
        assert(r@ =~= no_rules());
        r
    }

    /// Removes every rule.
    pub fn clear(&mut self)
        ensures
            final(self)@ == no_rules(),
    {
        self.allow_domains.clear();
        self.block_domains.clear();
        self.allow_suffixes.clear();
        self.block_suffixes.clear();
        self.allow_regex.clear();
        self.block_regex.clear();
        assert(self@ =~= no_rules());
    }

    /// Adds one exact domain, taken as it stands.
    pub fn add_exact(&mut self, allow: bool, domain: String)
        ensures
            final(self)@ == with_rule(old(self)@, allow, Body::Exact(domain@)),
    {
        if allow {
            self.allow_domains.insert(domain);
        } else {
            self.block_domains.insert(domain);
        }
    }

    /// Adds a domain and everything below it, taken as it stands; an empty name
    /// adds nothing.
    pub fn add_suffix(&mut self, allow: bool, domain: String)
        ensures
            final(self)@ == with_rule(old(self)@, allow, Body::Suffix(domain@)),
    {
        if domain.as_str().is_empty() {
            return ;
        }
        if allow {
            self.allow_suffixes.insert(domain);
        } else {
            self.block_suffixes.insert(domain);
        }
    }

    /// Adds a compiled pattern behind those that are there.
    pub fn add_pattern(&mut self, allow: bool, pattern: Pattern)
        ensures
            final(self)@ == with_rule(old(self)@, allow, Body::Pattern(pattern@)),
    {
        let ghost source = pattern@;
        if allow {
            let ghost before = self.allow_regex@;
            self.allow_regex.push(pattern);
            assert(sources(self.allow_regex@) =~= sources(before).push(source));
        } else {
            let ghost before = self.block_regex@;
            self.block_regex.push(pattern);
            assert(sources(self.block_regex@) =~= sources(before).push(source));
        }
    }

    /// Adds the rule of a line: domains in lowercase, patterns compiled. A
    /// pattern that does not compile is refused and changes nothing.
    pub fn add_rule(&mut self, rule: LineRule) -> (r: Result<(), RuleError>)
        ensures
            line_result(r, rule.body@),
            final(self)@ == if acceptable(rule.body@) {
                with_rule(old(self)@, rule.allow, lowered(rule.body@))
            } else {
                old(self)@
            },
            names_cleanly(rule.body@) ==> adds_clean_names(old(self)@, final(self)@),
    {
        match rule.body {
            RuleBody::Nothing => {},
            RuleBody::Exact(d) => {
                self.add_exact(rule.allow, text::to_lowercase(d.as_str()));
            },
            RuleBody::Suffix(d) => {
                self.add_suffix(rule.allow, text::to_lowercase(d.as_str()));
            },
            RuleBody::Pattern(p) => match Pattern::compile(p.as_str()) {
                Some(compiled) => {
                    self.add_pattern(rule.allow, compiled);
                },
                None => {
                    return Err(RuleError::InvalidPattern(p));
                },
            },
        }
        Ok(())
    }

    /// Reads one line of a blocklist in the given format.
    pub fn parse_line(&mut self, line: &str, format: ListFormat) -> (r: Result<(), RuleError>)
        requires
            is_adblock(format) ==> !lone_slash(line@),
        ensures
            line_result(r, line_body(line@, format)),
            final(self)@ == after_line(old(self)@, line@, format, false),
            adds_clean_names(old(self)@, final(self)@),
    {
        self.parse_line_mode(line, format, false)
    }

    /// Reads one line in the given format. When `as_allow` is true, every rule
    /// goes to the allow sets, marked as an exception or not: this is for
    /// allowlists, where a bare domain allows.
    pub fn parse_line_mode(&mut self, line: &str, format: ListFormat, as_allow: bool) -> (r: Result<
        (),
        RuleError,
    >)
        requires
            is_adblock(format) ==> !lone_slash(line@),
        ensures
            line_result(r, line_body(line@, format)),
            final(self)@ == after_line(old(self)@, line@, format, as_allow),
            adds_clean_names(old(self)@, final(self)@),
    {
        let rule = read_rule(line, format, as_allow);
        proof {
            lemma_line_names_cleanly(line@, format);
        }
        self.add_rule(rule)
    }

    /// Reads one line of a blocklist, its format detected.
    pub fn parse_auto(&mut self, line: &str) -> (r: Result<(), RuleError>)
        requires
            !lone_slash(line@),
        ensures
            line_result(r, line_body(line@, auto_format(line@))),
            final(self)@ == after_auto(old(self)@, line@, false),
            adds_clean_names(old(self)@, final(self)@),
    {
        self.parse_auto_mode(line, false)
    }

    /// Reads one line, its format detected. When `as_allow` is true, every rule
    /// goes to the allow sets.
    pub fn parse_auto_mode(&mut self, line: &str, as_allow: bool) -> (r: Result<(), RuleError>)
        requires
            !lone_slash(line@),
        ensures
            line_result(r, line_body(line@, auto_format(line@))),
            final(self)@ == after_auto(old(self)@, line@, as_allow),
            adds_clean_names(old(self)@, final(self)@),
    {
        let format = detect_format(line);
        self.parse_line_mode(line, format, as_allow)
    }
}

// ---------------------------------------------------------------------------
// Reading whole lists
// ---------------------------------------------------------------------------

/// The rules after a run of lines whose formats are detected. A line that
/// cannot be taken is passed over.
pub open spec fn after_lines(rules: Rules, lines: Seq<Seq<char>>, as_allow: bool) -> Rules
    decreases lines.len(),
{
    if lines.len() == 0 {
        rules
    } else {
        after_auto(after_lines(rules, lines.drop_last(), as_allow), lines.last(), as_allow)
    }
}

/// Whether a line of a text is a lone slash.
pub open spec fn some_lone_slash(body: Seq<char>) -> bool {
    exists|i: int| 0 <= i < text::lines(body).len() && lone_slash(#[trigger] text::lines(body)[i])
}

/// Whether a line of a text is a lone slash.
pub fn has_lone_slash(body: &str) -> (r: bool)
    ensures
        r == some_lone_slash(body@),
{
    let lines = text::split_lines(body);
    let ghost all = text::lines(body@);
    assert(lines@.len() == all.len()) by {
        assert(text::texts(lines@).len() == all.len());
    }
    for i in 0..lines.len()
        invariant
            text::texts(lines@) == all,
            lines@.len() == all.len(),
            all == text::lines(body@),
            forall|k: int| 0 <= k < i ==> !lone_slash(#[trigger] all[k]),
    {
        assert(text::texts(lines@)[i as int] == lines@[i as int]@);
        if is_lone_slash(lines[i].as_str()) {
            assert(lone_slash(all[i as int]));
            return true;
        }
    }
    false
}

/// Reads every line of a list into the rules, passing over what cannot be
/// taken.
fn read_lines(bl: &mut Blocklist, body: &str, as_allow: bool)
    requires
        !some_lone_slash(body@),
    ensures
        final(bl)@ == after_lines(old(bl)@, text::lines(body@), as_allow),
        adds_clean_names(old(bl)@, final(bl)@),
{
    let lines = text::split_lines(body);
    let ghost all = text::lines(body@);
    let ghost before = bl@;
    assert(lines@.len() == all.len()) by {
        assert(text::texts(lines@).len() == all.len());
    }
    for i in 0..lines.len()
        invariant
            text::texts(lines@) == all,
            lines@.len() == all.len(),
            all == text::lines(body@),
            !some_lone_slash(body@),
            before == old(bl)@,
            bl@ == after_lines(before, all.take(i as int), as_allow),
            adds_clean_names(before, bl@),
    {
        let ghost mid = bl@;
        assert(text::texts(lines@)[i as int] == lines@[i as int]@);
        assert(!lone_slash(all[i as int]));
        let _ = bl.parse_auto_mode(lines[i].as_str(), as_allow);
        assert forall|d: Seq<char>| #[trigger] added(before, bl@, d) implies clean_name(d) by {
            assert(added(before, mid, d) || added(mid, bl@, d));
        }
        assert(all.take(i + 1).drop_last() =~= all.take(i as int));
    }
    assert(all.take(all.len() as int) =~= all);
}

/// Reads a blocklist into the rules. A line that cannot be taken is passed
/// over.
pub fn parse_lines_into(bl: &mut Blocklist, body: &str)
    requires
        !some_lone_slash(body@),
    ensures
        final(bl)@ == after_lines(old(bl)@, text::lines(body@), false),
        adds_clean_names(old(bl)@, final(bl)@),
{
    read_lines(bl, body, false)
}

/// Reads an allowlist into the rules: every rule in it allows. A line that
/// cannot be taken is passed over.
pub fn parse_lines_into_allow(bl: &mut Blocklist, body: &str)
    requires
        !some_lone_slash(body@),
    ensures
        final(bl)@ == after_lines(old(bl)@, text::lines(body@), true),
        adds_clean_names(old(bl)@, final(bl)@),
{
    read_lines(bl, body, true)
}

/// Both sets of rules together; patterns of `b` behind those of `a`.
pub open spec fn merged(a: Rules, b: Rules) -> Rules {
    Rules {
        allow_domains: a.allow_domains.union(b.allow_domains),
        block_domains: a.block_domains.union(b.block_domains),
        allow_suffixes: a.allow_suffixes.union(b.allow_suffixes),
        block_suffixes: a.block_suffixes.union(b.block_suffixes),
        allow_patterns: a.allow_patterns + b.allow_patterns,
        block_patterns: a.block_patterns + b.block_patterns,
    }
}

/// Adds every rule of `source` to `target`.
pub fn merge_blocklist(target: &mut Blocklist, source: Blocklist)
    ensures
        final(target)@ == merged(old(target)@, source@),
{
    let ghost a = target@;
    let ghost b = source@;
    let ghost allow = target.allow_regex@;
    let ghost block = target.block_regex@;
    let ghost more_allow = source.allow_regex@;
    let ghost more_block = source.block_regex@;
    target.allow_domains.extend(source.allow_domains);
    target.block_domains.extend(source.block_domains);
    target.allow_suffixes.extend(source.allow_suffixes);
    target.block_suffixes.extend(source.block_suffixes);
    let mut allow_regex = source.allow_regex;
    let mut block_regex = source.block_regex;
    target.allow_regex.append(&mut allow_regex);
    target.block_regex.append(&mut block_regex);
    assert(sources(allow + more_allow) =~= sources(allow) + sources(more_allow));
    assert(sources(block + more_block) =~= sources(block) + sources(more_block));
}

/// The format of a line: the given one, or the one that the line shows.
pub open spec fn chosen_format(format: Option<ListFormat>, line: Seq<char>) -> ListFormat {
    match format {
        Some(f) => f,
        None => auto_format(line),
    }
}

/// How far a list was read.
pub enum Reading {
    /// To its end.
    Done,
    /// Up to a line with this pattern, which does not compile.
    Refused(Seq<char>),
    /// Up to a lone slash.
    Stuck,
}

/// The rules after a run of lines of a blocklist, and how far they were read.
/// Reading stops at the first line that cannot be taken.
pub open spec fn after_content(
    rules: Rules,
    lines: Seq<Seq<char>>,
    format: Option<ListFormat>,
) -> (Rules, Reading)
    decreases lines.len(),
{
    if lines.len() == 0 {
        (rules, Reading::Done)
    } else {
        let (before, reading) = after_content(rules, lines.drop_last(), format);
        let line = lines.last();
        let f = chosen_format(format, line);
        let body = line_body(line, f);
        if reading !is Done {
            (before, reading)
        } else if is_adblock(f) && lone_slash(line) {
            (before, Reading::Stuck)
        } else if !acceptable(body) {
            (before, Reading::Refused(body->Pattern_0))
        } else {
            (after_line(before, line, f, false), Reading::Done)
        }
    }
}

proof fn lemma_content_stops(
    rules: Rules,
    lines: Seq<Seq<char>>,
    format: Option<ListFormat>,
    n: int,
)
    requires
        0 <= n <= lines.len(),
        after_content(rules, lines.take(n), format).1 !is Done,
    ensures
        after_content(rules, lines, format) == after_content(rules, lines.take(n), format),
    decreases lines.len(),
{
    if n < lines.len() {
        assert(lines.drop_last().take(n) =~= lines.take(n));
        lemma_content_stops(rules, lines.drop_last(), format, n);
    } else {
        assert(lines.take(n) =~= lines);
    }
}

impl Blocklist {
    /// Reads the text of a blocklist, in the given format or with the format
    /// of each line detected. Stops at the first line whose pattern does not
    /// compile and gives its error. `None` where it comes to a lone slash, which
    /// no rule is made of. What stands before that line has been taken.
    pub fn parse_content(&mut self, content: &str, format: Option<ListFormat>) -> (r: Option<
        Result<(), RuleError>,
    >)
        ensures
            ({
                let (rules, reading) = after_content(old(self)@, text::lines(content@), format);
                &&& final(self)@ == rules
                &&& adds_clean_names(old(self)@, rules)
                &&& match reading {
                    Reading::Done => r == Some(Ok::<(), RuleError>(())),
                    Reading::Refused(p) => r matches Some(Err(RuleError::InvalidPattern(s))) && s@
                        == p,
                    Reading::Stuck => r is None,
                }
            }),
    {
        let lines = text::split_lines(content);
        let ghost all = text::lines(content@);
        let ghost before = self@;
        assert(lines@.len() == all.len()) by {
            assert(text::texts(lines@).len() == all.len());
        }
        for i in 0..lines.len()
            invariant
                text::texts(lines@) == all,
                lines@.len() == all.len(),
                all == text::lines(content@),
                before == old(self)@,
                after_content(before, all.take(i as int), format) == (self@, Reading::Done),
                adds_clean_names(before, self@),
        {
            let ghost mid = self@;
            let line = lines[i].as_str();
            assert(text::texts(lines@)[i as int] == line@);
            assert(all.take(i + 1).drop_last() =~= all.take(i as int));
            let f = match format {
                Some(f) => f,
                None => detect_format(line),
            };
            let adblock = match f {
                ListFormat::AdBlock | ListFormat::AdGuard => true,
                ListFormat::Hosts | ListFormat::PiHole => false,
            };
            if adblock && is_lone_slash(line) {
                proof {
                    lemma_content_stops(before, all, format, i + 1);
                }
                return None;
            }
            match self.parse_line(line, f) {
                Ok(()) => {
                    assert forall|d: Seq<char>| #[trigger] added(before, self@, d) implies clean_name(
                        d,
                    ) by {
                        assert(added(before, mid, d) || added(mid, self@, d));
                    }
                },
                Err(e) => {
                    proof {
                        lemma_content_stops(before, all, format, i + 1);
                    }
                    return Some(Err(e));
                },
            }
        }
        assert(all.take(all.len() as int) =~= all);
        Some(Ok(()))
    }
}

// ---------------------------------------------------------------------------
// Matching
// ---------------------------------------------------------------------------

/// What the rules say of a domain.
#[derive(Debug, PartialEq, Eq)]
pub enum MatchOutcome {
    /// Blocked by the named block rule.
    Blocked(String),
    /// Allowed by the named allow rule, whatever block rules say.
    Allowed(String),
    /// No rule speaks of the domain.
    Forwarded,
}

/// What the rules say of a domain, as a mathematical value.
pub enum Outcome {
    Blocked(Seq<char>),
    Allowed(Seq<char>),
    Forwarded,
}

impl View for MatchOutcome {
    type V = Outcome;

    open spec fn view(&self) -> Outcome {
        match self {
            MatchOutcome::Blocked(s) => Outcome::Blocked(s@),
            MatchOutcome::Allowed(s) => Outcome::Allowed(s@),
            MatchOutcome::Forwarded => Outcome::Forwarded,
        }
    }
}

impl Clone for MatchOutcome {
    fn clone(&self) -> (r: Self)
        ensures
            r@ == self@,
    {
        match self {
            MatchOutcome::Blocked(s) => MatchOutcome::Blocked(s.clone()),
            MatchOutcome::Allowed(s) => MatchOutcome::Allowed(s.clone()),
            MatchOutcome::Forwarded => MatchOutcome::Forwarded,
        }
    }
}

/// Whether `d` or what follows one of its dots is in the set.
pub open spec fn suffix_hit(set: Set<Seq<char>>, d: Seq<char>) -> bool {
    set.contains(d) || exists|i: int|
        0 <= i < d.len() && d[i] == '.' && set.contains(#[trigger] d.skip(i + 1))
}

/// The first of the patterns that matches somewhere in `d`.
pub open spec fn first_match(patterns: Seq<Seq<char>>, d: Seq<char>) -> Option<Seq<char>>
    decreases patterns.len(),
{
    if patterns.len() == 0 {
        None
    } else {
        match first_match(patterns.drop_last(), d) {
            Some(p) => Some(p),
            None => if pattern::regex_finds(patterns.last(), d) {
                Some(patterns.last())
            } else {
                None
            },
        }
    }
}

/// What the rules say of a domain that is in lowercase.
pub open spec fn outcome(rules: Rules, d: Seq<char>) -> Outcome {
    if rules.allow_domains.contains(d) {
        Outcome::Allowed("allow:"@ + d)
    } else if let Some(p) = first_match(rules.allow_patterns, d) {
        Outcome::Allowed("allow_regex:"@ + p)
    } else if suffix_hit(rules.allow_suffixes, d) {
        Outcome::Allowed("allow_suffix:"@ + d)
    } else if rules.block_domains.contains(d) {
        Outcome::Blocked("block:"@ + d)
    } else if suffix_hit(rules.block_suffixes, d) {
        Outcome::Blocked("block_suffix:"@ + d)
    } else if let Some(p) = first_match(rules.block_patterns, d) {
        Outcome::Blocked("block_regex:"@ + p)
    } else {
        Outcome::Forwarded
    }
}

/// The name of a rule: its kind, then the domain or pattern.
fn rule_name(kind: &str, what: &str) -> (r: String)
    ensures
        r@ == kind@ + what@,
{
    let mut s = kind.to_owned();
    s.append(what);
    s
}

/// The first of the patterns that matches somewhere in `domain`.
fn find_match<'a>(patterns: &'a [Pattern], domain: &str) -> (r: Option<&'a Pattern>)
    ensures
        match r {
            Some(p) => first_match(sources(patterns@), domain@) == Some(p@),
            None => first_match(sources(patterns@), domain@) is None,
        },
{
    let ghost all = sources(patterns@);
    for i in 0..patterns.len()
        invariant
            all == sources(patterns@),
            first_match(all.take(i as int), domain@) is None,
    {
        assert(all.take(i + 1).drop_last() =~= all.take(i as int));
        if patterns[i].is_match(domain) {
            proof {
                lemma_first_match(all, domain@, i + 1);
            }
            return Some(&patterns[i]);
        }
    }
    assert(all.take(all.len() as int) =~= all);
    None
}

proof fn lemma_first_match(patterns: Seq<Seq<char>>, d: Seq<char>, n: int)
    requires
        0 <= n <= patterns.len(),
        first_match(patterns.take(n), d) is Some,
    ensures
        first_match(patterns, d) == first_match(patterns.take(n), d),
    decreases patterns.len(),
{
    if n < patterns.len() {
        assert(patterns.drop_last().take(n) =~= patterns.take(n));
        lemma_first_match(patterns.drop_last(), d, n);
    } else {
        assert(patterns.take(n) =~= patterns);
    }
}

impl Blocklist {
    /// Whether the domain or one that it lies below is in the set.
    pub fn suffix_match(set: &DomainSet, domain: &str) -> (r: bool)
        ensures
            r == suffix_hit(set@, domain@),
    {
        if set.contains(domain) {
            return true;
        }
        let chars = text::chars_of(domain);
        for i in 0..chars.len()
            invariant
                chars@ == domain@,
                !set@.contains(domain@),
                forall|k: int|
                    0 <= k < i && domain@[k] == '.' ==> !set@.contains(#[trigger] domain@.skip(k + 1)),
        {
            if chars[i] == '.' {
                let rest = text::text_of(slice_subrange(&chars, i + 1, chars.len()));
                assert(rest@ =~= domain@.skip(i + 1));
                if set.contains(rest.as_str()) {
                    return true;
                }
            }
        }
        false
    }

    /// What the rules say of a domain that is in lowercase.
    pub fn check_lower(&self, domain: &str) -> (r: MatchOutcome)
        ensures
            r@ == outcome(self@, domain@),
    {
        if self.allow_domains.contains(domain) {
            return MatchOutcome::Allowed(rule_name("allow:", domain));
        }
        if let Some(p) = find_match(&self.allow_regex, domain) {
            return MatchOutcome::Allowed(rule_name("allow_regex:", p.as_str()));
        }
        if Self::suffix_match(&self.allow_suffixes, domain) {
            return MatchOutcome::Allowed(rule_name("allow_suffix:", domain));
        }
        if self.block_domains.contains(domain) {
            return MatchOutcome::Blocked(rule_name("block:", domain));
        }
        if Self::suffix_match(&self.block_suffixes, domain) {
            return MatchOutcome::Blocked(rule_name("block_suffix:", domain));
        }
        if let Some(p) = find_match(&self.block_regex, domain) {
            return MatchOutcome::Blocked(rule_name("block_regex:", p.as_str()));
        }
        MatchOutcome::Forwarded
    }

    /// What the rules say of a domain, with the rule that decides. Letter case
    /// does not count. Allow rules come before block rules.
    pub fn check(&self, domain: &str) -> (r: MatchOutcome)
        ensures
            r@ == outcome(self@, text::lowercase(domain@)),
    {
        let lower = text::to_lowercase(domain);
        self.check_lower(lower.as_str())
    }

    /// Whether the rules block a domain.
    pub fn matches(&self, domain: &str) -> (r: bool)
        ensures
            r == (outcome(self@, text::lowercase(domain@)) is Blocked),
    {
        match self.check(domain) {
            MatchOutcome::Blocked(_) => true,
            MatchOutcome::Allowed(_) | MatchOutcome::Forwarded => false,
        }
    }
}

} // verus!
