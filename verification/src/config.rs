//! The configuration, the rules that it stands for, and how two configurations
//! differ.
use vstd::prelude::*;
use crate::blocklist;
use crate::blocklist::{Blocklist, Body, ListFormat, Rules};
use crate::fetch;
use crate::fetch::ListBody;
use crate::filtering;
use crate::pattern;
use crate::pattern::Pattern;
use crate::text;

verus! {

/// Where to listen.
#[derive(Debug, PartialEq, Eq)]
pub struct ServerConfig {
    pub listen_addr: String,
    pub listen_port: u16,
}

/// The upstream resolver.
#[derive(Debug, PartialEq, Eq)]
pub struct UpstreamConfig {
    /// The four parts of its address.
    pub address: [u8; 4],
    pub port: u16,
    pub use_tcp: bool,
}

/// The lists.
#[derive(Debug, PartialEq, Eq)]
pub struct BlocklistConfig {
    pub urls: Vec<String>,
    pub allowlist_urls: Vec<String>,
    pub refresh_interval_secs: u64,
    pub cache_ttl_secs: Option<u64>,
}

/// Rules given in the configuration itself.
#[derive(Debug, PartialEq, Eq)]
pub struct MatchingConfig {
    pub manual_block: Vec<String>,
    pub manual_allow: Vec<String>,
    pub regex_block: Vec<String>,
    pub regex_allow: Vec<String>,
}

/// The cache of lists.
#[derive(Debug, PartialEq, Eq)]
pub struct CacheConfig {
    pub path: String,
}

/// The log of queries.
#[derive(Debug, PartialEq, Eq)]
pub struct LoggingConfig {
    pub queries: bool,
}

/// The whole configuration.
#[derive(Debug, PartialEq, Eq)]
pub struct Config {
    pub server: ServerConfig,
    pub upstream: UpstreamConfig,
    pub blocklists: BlocklistConfig,
    pub matching: MatchingConfig,
    pub cache: CacheConfig,
    pub logging: LoggingConfig,
}

impl BlocklistConfig {
    /// For how long a cached list is fresh: as given, or until the next refresh.
    pub open spec fn ttl(&self) -> u64 {
        match self.cache_ttl_secs {
            Some(t) => t,
            None => self.refresh_interval_secs,
        }
    }

    /// For how long a cached list is fresh.
    pub fn cache_ttl(&self) -> (r: u64)
        ensures
            r == self.ttl(),
    {
        match self.cache_ttl_secs {
            Some(t) => t,
            None => self.refresh_interval_secs,
        }
    }

    /// The addresses of all lists: blocklists, then allowlists.
    pub fn all_urls(&self) -> (r: Vec<String>)
        ensures
            text::texts(r@) == text::texts(self.urls@) + text::texts(self.allowlist_urls@),
    {
        let mut out: Vec<String> = Vec::new();
        assert(text::texts(out@) =~= Seq::empty());
        push_texts(&mut out, &self.urls);
        push_texts(&mut out, &self.allowlist_urls);
        assert(text::texts(out@) =~= text::texts(self.urls@) + text::texts(self.allowlist_urls@));
        out
    }
}

/// Appends texts.
fn push_texts(out: &mut Vec<String>, more: &[String])
    ensures
        text::texts(final(out)@) == text::texts(old(out)@) + text::texts(more@),
{
    let ghost start = text::texts(out@);
    let ghost all = text::texts(more@);
    assert(start + all.take(0) =~= start);
    for i in 0..more.len()
        invariant
            all == text::texts(more@),
            text::texts(out@) == start + all.take(i as int),
    {
        let ghost before = out@;
        out.push(more[i].clone());
        assert(text::texts(out@) =~= text::texts(before).push(all[i as int]));
        assert(start + all.take(i + 1) =~= (start + all.take(i as int)).push(all[i as int]));
    }
    assert(all.take(all.len() as int) =~= all);
}

/// Where the cache is kept if the configuration does not say: under the home
/// directory.
pub fn default_cache_path(home: &str) -> (r: String)
    ensures
        r@ == home@ + "/.cache/dns-ligase/cache.json"@,
{
    let mut s = home.to_owned();
    s.append("/.cache/dns-ligase/cache.json");
    s
}

// ---------------------------------------------------------------------------
// The rules that a configuration stands for
// ---------------------------------------------------------------------------

/// The rules after lines of AdBlock rules. A line that cannot be taken is passed
/// over.
pub open spec fn after_blocks(rules: Rules, lines: Seq<Seq<char>>) -> Rules
    decreases lines.len(),
{
    if lines.len() == 0 {
        rules
    } else {
        blocklist::after_line(
            after_blocks(rules, lines.drop_last()),
            lines.last(),
            ListFormat::AdBlock,
            false,
        )
    }
}

/// The rules with domains allowed.
pub open spec fn after_allows(rules: Rules, domains: Seq<Seq<char>>) -> Rules
    decreases domains.len(),
{
    if domains.len() == 0 {
        rules
    } else {
        blocklist::with_rule(
            after_allows(rules, domains.drop_last()),
            true,
            Body::Exact(text::without_trailing(text::lowercase(domains.last()), '.')),
        )
    }
}

/// The rules with patterns added. A pattern that does not compile is passed over.
pub open spec fn after_patterns(rules: Rules, patterns: Seq<Seq<char>>, allow: bool) -> Rules
    decreases patterns.len(),
{
    if patterns.len() == 0 {
        rules
    } else {
        let before = after_patterns(rules, patterns.drop_last(), allow);
        if pattern::regex_takes(patterns.last()) {
            blocklist::with_rule(before, allow, Body::Pattern(patterns.last()))
        } else {
            before
        }
    }
}

/// The rules that the configuration itself gives.
pub open spec fn manual_rules(m: MatchingConfig) -> Rules {
    after_patterns(
        after_patterns(
            after_allows(
                after_blocks(blocklist::no_rules(), text::texts(m.manual_block@)),
                text::texts(m.manual_allow@),
            ),
            text::texts(m.regex_block@),
            false,
        ),
        text::texts(m.regex_allow@),
        true,
    )
}

/// The list at an address, the last of those given with that address.
pub open spec fn body_of(bodies: Seq<(Seq<char>, Seq<char>)>, url: Seq<char>) -> Option<Seq<char>>
    decreases bodies.len(),
{
    if bodies.len() == 0 {
        None
    } else if bodies.last().0 == url {
        Some(bodies.last().1)
    } else {
        body_of(bodies.drop_last(), url)
    }
}

/// The rules after the lists at addresses. An address without a list is passed
/// over.
pub open spec fn after_lists(
    rules: Rules,
    urls: Seq<Seq<char>>,
    bodies: Seq<(Seq<char>, Seq<char>)>,
    as_allow: bool,
) -> Rules
    decreases urls.len(),
{
    if urls.len() == 0 {
        rules
    } else {
        let before = after_lists(rules, urls.drop_last(), bodies, as_allow);
        match body_of(bodies, urls.last()) {
            Some(body) => blocklist::after_lines(before, text::lines(body), as_allow),
            None => before,
        }
    }
}

/// The rules that a configuration stands for, with the given lists: its own
/// rules, then its blocklists, then its allowlists.
pub open spec fn configured_rules(c: Config, bodies: Seq<(Seq<char>, Seq<char>)>) -> Rules {
    after_lists(
        after_lists(
            manual_rules(c.matching),
            text::texts(c.blocklists.urls@),
            bodies,
            false,
        ),
        text::texts(c.blocklists.allowlist_urls@),
        bodies,
        true,
    )
}

/// No line is a lone slash.
pub open spec fn lines_buildable(lines: Seq<Seq<char>>) -> bool {
    forall|i: int| 0 <= i < lines.len() ==> !blocklist::lone_slash(#[trigger] lines[i])
}

/// No list at one of the addresses holds a lone slash.
pub open spec fn lists_buildable(
    urls: Seq<Seq<char>>,
    bodies: Seq<(Seq<char>, Seq<char>)>,
) -> bool {
    forall|i: int|
        0 <= i < urls.len() ==> (body_of(bodies, #[trigger] urls[i]) matches Some(b)
            ==> !blocklist::some_lone_slash(b))
}

/// No line that goes into the rules is a lone slash.
pub open spec fn buildable(c: Config, bodies: Seq<(Seq<char>, Seq<char>)>) -> bool {
    &&& lines_buildable(text::texts(c.matching.manual_block@))
    &&& lists_buildable(text::texts(c.blocklists.urls@), bodies)
    &&& lists_buildable(text::texts(c.blocklists.allowlist_urls@), bodies)
}

/// The list at an address.
fn find_body<'a>(bodies: &'a [ListBody], url: &str) -> (r: Option<&'a str>)
    ensures
        match r {
            Some(b) => body_of(fetch::bodies(bodies@), url@) == Some(b@),
            None => body_of(fetch::bodies(bodies@), url@) is None,
        },
{
    let ghost all = fetch::bodies(bodies@);
    let mut i: usize = bodies.len();
    assert(all.take(i as int) =~= all);
    while 0 < i
        invariant
            i <= bodies@.len(),
            all == fetch::bodies(bodies@),
            body_of(all, url@) == body_of(all.take(i as int), url@),
        decreases i,
    {
        assert(all.take(i as int).last() == (bodies@[i - 1].url@, bodies@[i - 1].body@));
        assert(all.take(i as int).drop_last() =~= all.take(i - 1));
        i = i - 1;
        if text::same_text(bodies[i].url.as_str(), url) {
            return Some(bodies[i].body.as_str());
        }
    }
    assert(all.take(0) =~= Seq::empty());
    None
}

/// Whether no list at one of the addresses holds a lone slash.
fn check_lists(urls: &[String], bodies: &[ListBody]) -> (r: bool)
    ensures
        r == lists_buildable(text::texts(urls@), fetch::bodies(bodies@)),
{
    let ghost all = text::texts(urls@);
    let ghost lists = fetch::bodies(bodies@);
    for i in 0..urls.len()
        invariant
            all == text::texts(urls@),
            lists == fetch::bodies(bodies@),
            forall|k: int|
                0 <= k < i ==> (body_of(lists, #[trigger] all[k]) matches Some(b)
                    ==> !blocklist::some_lone_slash(b)),
    {
        assert(all[i as int] == urls@[i as int]@);
        if let Some(b) = find_body(bodies, urls[i].as_str()) {
            if blocklist::has_lone_slash(b) {
                return false;
            }
        }
    }
    true
}

/// Whether no line that goes into the rules is a lone slash.
pub fn is_buildable(config: &Config, bodies: &[ListBody]) -> (r: bool)
    ensures
        r == buildable(*config, fetch::bodies(bodies@)),
{
    let lines = &config.matching.manual_block;
    let ghost all = text::texts(lines@);
    for i in 0..lines.len()
        invariant
            all == text::texts(lines@),
            lines == config.matching.manual_block,
            forall|k: int| 0 <= k < i ==> !blocklist::lone_slash(#[trigger] all[k]),
    {
        assert(all[i as int] == lines@[i as int]@);
        if blocklist::is_lone_slash(lines[i].as_str()) {
            assert(!lines_buildable(all));
            return false;
        }
    }
    check_lists(&config.blocklists.urls, bodies) && check_lists(
        &config.blocklists.allowlist_urls,
        bodies,
    )
}

/// Adds the patterns that compile.
fn add_patterns(bl: &mut Blocklist, patterns: &[String], allow: bool)
    ensures
        final(bl)@ == after_patterns(old(bl)@, text::texts(patterns@), allow),
{
    let ghost before = bl@;
    let ghost all = text::texts(patterns@);
    for i in 0..patterns.len()
        invariant
            all == text::texts(patterns@),
            bl@ == after_patterns(before, all.take(i as int), allow),
    {
        assert(all[i as int] == patterns@[i as int]@);
        assert(all.take(i + 1).drop_last() =~= all.take(i as int));
        if let Some(p) = Pattern::compile(patterns[i].as_str()) {
            bl.add_pattern(allow, p);
        }
    }
    assert(all.take(all.len() as int) =~= all);
}

/// The rules that the configuration itself gives.
pub fn manual_blocklist(m: &MatchingConfig) -> (r: Blocklist)
    requires
        lines_buildable(text::texts(m.manual_block@)),
    ensures
        r@ == manual_rules(*m),
{
    let mut bl = Blocklist::new();
    let ghost blocks = text::texts(m.manual_block@);
    for i in 0..m.manual_block.len()
        invariant
            blocks == text::texts(m.manual_block@),
            lines_buildable(blocks),
            bl@ == after_blocks(blocklist::no_rules(), blocks.take(i as int)),
    {
        assert(blocks[i as int] == m.manual_block@[i as int]@);
        assert(blocks.take(i + 1).drop_last() =~= blocks.take(i as int));
        let _ = bl.parse_line(m.manual_block[i].as_str(), ListFormat::AdBlock);
    }
    assert(blocks.take(blocks.len() as int) =~= blocks);
    let ghost before = bl@;
    let ghost allows = text::texts(m.manual_allow@);
    for i in 0..m.manual_allow.len()
        invariant
            allows == text::texts(m.manual_allow@),
            bl@ == after_allows(before, allows.take(i as int)),
    {
        assert(allows[i as int] == m.manual_allow@[i as int]@);
        assert(allows.take(i + 1).drop_last() =~= allows.take(i as int));
        let lower = text::chars_of(text::to_lowercase(m.manual_allow[i].as_str()).as_str());
        bl.add_exact(true, text::text_of(text::trim_end_char(&lower, '.')));
    }
    assert(allows.take(allows.len() as int) =~= allows);
    add_patterns(&mut bl, &m.regex_block, false);
    add_patterns(&mut bl, &m.regex_allow, true);
    bl
}

/// Reads the lists at addresses into the rules.
fn add_lists(bl: &mut Blocklist, urls: &[String], bodies: &[ListBody], as_allow: bool)
    requires
        lists_buildable(text::texts(urls@), fetch::bodies(bodies@)),
    ensures
        final(bl)@ == after_lists(
            old(bl)@,
            text::texts(urls@),
            fetch::bodies(bodies@),
            as_allow,
        ),
{
    let ghost before = bl@;
    let ghost all = text::texts(urls@);
    let ghost lists = fetch::bodies(bodies@);
    for i in 0..urls.len()
        invariant
            all == text::texts(urls@),
            lists == fetch::bodies(bodies@),
            lists_buildable(all, lists),
            bl@ == after_lists(before, all.take(i as int), lists, as_allow),
    {
        assert(all[i as int] == urls@[i as int]@);
        assert(all.take(i + 1).drop_last() =~= all.take(i as int));
        if let Some(body) = find_body(bodies, urls[i].as_str()) {
            if as_allow {
                blocklist::parse_lines_into_allow(bl, body);
            } else {
                blocklist::parse_lines_into(bl, body);
            }
        }
    }
    assert(all.take(all.len() as int) =~= all);
}

/// The rules that a configuration stands for, with the given lists.
pub fn create_blocklist(config: &Config, bodies: &[ListBody]) -> (r: Blocklist)
    requires
        buildable(*config, fetch::bodies(bodies@)),
    ensures
        r@ == configured_rules(*config, fetch::bodies(bodies@)),
{
    let mut bl = manual_blocklist(&config.matching);
    add_lists(&mut bl, &config.blocklists.urls, bodies, false);
    add_lists(&mut bl, &config.blocklists.allowlist_urls, bodies, true);
    bl
}

// ---------------------------------------------------------------------------
// What the rules of a configuration promise
// ---------------------------------------------------------------------------

/// Rules are only added when lists are read.
proof fn lemma_lists_add(
    rules: Rules,
    urls: Seq<Seq<char>>,
    bodies: Seq<(Seq<char>, Seq<char>)>,
    as_allow: bool,
)
    ensures
        filtering::contained(rules, after_lists(rules, urls, bodies, as_allow)),
    decreases urls.len(),
{
    if urls.len() > 0 {
        let before = after_lists(rules, urls.drop_last(), bodies, as_allow);
        lemma_lists_add(rules, urls.drop_last(), bodies, as_allow);
        if let Some(body) = body_of(bodies, urls.last()) {
            let lines = text::lines(body);
            filtering::law_list_adds(before, lines, as_allow);
            filtering::lemma_contained_trans(
                rules,
                before,
                blocklist::after_lines(before, lines, as_allow),
            );
        }
    }
}

/// Rules are only added when patterns are.
proof fn lemma_patterns_add(rules: Rules, patterns: Seq<Seq<char>>, allow: bool)
    ensures
        filtering::contained(rules, after_patterns(rules, patterns, allow)),
    decreases patterns.len(),
{
    if patterns.len() > 0 {
        let before = after_patterns(rules, patterns.drop_last(), allow);
        lemma_patterns_add(rules, patterns.drop_last(), allow);
        let after = after_patterns(rules, patterns, allow);
        assert(before.allow_patterns.is_prefix_of(after.allow_patterns));
        assert(before.block_patterns.is_prefix_of(after.block_patterns));
        filtering::lemma_contained_trans(rules, before, after);
    }
}

proof fn lemma_allowed(rules: Rules, domains: Seq<Seq<char>>, i: int)
    requires
        0 <= i < domains.len(),
    ensures
        after_allows(rules, domains).allow_domains.contains(
            text::without_trailing(text::lowercase(domains[i]), '.'),
        ),
    decreases domains.len(),
{
    if i < domains.len() - 1 {
        lemma_allowed(rules, domains.drop_last(), i);
    }
}

/// The lists only add to the rules that the configuration itself gives.
pub proof fn law_lists_add_to_manual_rules(c: Config, bodies: Seq<(Seq<char>, Seq<char>)>)
    ensures
        filtering::contained(manual_rules(c.matching), configured_rules(c, bodies)),
{
    let manual = manual_rules(c.matching);
    let urls = text::texts(c.blocklists.urls@);
    let allow_urls = text::texts(c.blocklists.allowlist_urls@);
    let mid = after_lists(manual, urls, bodies, false);
    lemma_lists_add(manual, urls, bodies, false);
    lemma_lists_add(mid, allow_urls, bodies, true);
    filtering::lemma_contained_trans(manual, mid, configured_rules(c, bodies));
}

/// A domain that the configuration allows is allowed, whatever the other rules
/// and the lists say.
pub proof fn law_manual_allow_wins(c: Config, bodies: Seq<(Seq<char>, Seq<char>)>, i: int)
    requires
        0 <= i < c.matching.manual_allow@.len(),
    ensures
        blocklist::outcome(
            configured_rules(c, bodies),
            text::without_trailing(text::lowercase(c.matching.manual_allow@[i]@), '.'),
        ) is Allowed,
{
    let m = c.matching;
    let domains = text::texts(m.manual_allow@);
    let d = text::without_trailing(text::lowercase(m.manual_allow@[i]@), '.');
    assert(domains[i] == m.manual_allow@[i]@);
    let blocked = after_blocks(blocklist::no_rules(), text::texts(m.manual_block@));
    let allowed = after_allows(blocked, domains);
    lemma_allowed(blocked, domains, i);
    let with_block = after_patterns(allowed, text::texts(m.regex_block@), false);
    lemma_patterns_add(allowed, text::texts(m.regex_block@), false);
    lemma_patterns_add(with_block, text::texts(m.regex_allow@), true);
    law_lists_add_to_manual_rules(c, bodies);
    let rules = configured_rules(c, bodies);
    assert(rules.allow_domains.contains(d));
    filtering::law_allow_wins(rules, d);
}

// ---------------------------------------------------------------------------
// Which rules a configuration gives
// ---------------------------------------------------------------------------

/// The list at an address is the last one given with it; an address with which
/// none was given has no list.
pub proof fn law_body_of(bodies: Seq<(Seq<char>, Seq<char>)>, url: Seq<char>)
    ensures
        forall|i: int|
            0 <= i < bodies.len() && (#[trigger] bodies[i]).0 == url && (forall|j: int|
                i < j < bodies.len() ==> (#[trigger] bodies[j]).0 != url) ==> body_of(bodies, url)
                == Some(bodies[i].1),
        body_of(bodies, url) is None <==> forall|i: int|
            0 <= i < bodies.len() ==> (#[trigger] bodies[i]).0 != url,
    decreases bodies.len(),
{
    if bodies.len() > 0 {
        let front = bodies.drop_last();
        let n = bodies.len() - 1;
        law_body_of(front, url);
        assert(bodies.last() == bodies[n]);
        if bodies[n].0 != url {
            assert forall|i: int|
                0 <= i < bodies.len() && (#[trigger] bodies[i]).0 == url && (forall|j: int|
                    i < j < bodies.len() ==> (#[trigger] bodies[j]).0 != url) implies body_of(
                bodies,
                url,
            ) == Some(bodies[i].1) by {
                assert(front[i] == bodies[i]);
                assert forall|j: int| i < j < front.len() implies (#[trigger] front[j]).0
                    != url by {
                    assert(front[j] == bodies[j]);
                }
            }
            if body_of(front, url) is None {
                assert forall|i: int| 0 <= i < bodies.len() implies (#[trigger] bodies[i]).0
                    != url by {
                    if i < n {
                        assert(front[i] == bodies[i]);
                    }
                }
            } else {
                let k = choose|k: int| 0 <= k < front.len() && (#[trigger] front[k]).0 == url;
                assert(bodies[k] == front[k]);
            }
        }
    }
}

/// Whether a line of a list at one of the addresses gives a rule.
pub open spec fn lists_give(
    urls: Seq<Seq<char>>,
    bodies: Seq<(Seq<char>, Seq<char>)>,
    as_allow: bool,
    allow: bool,
    rule: Body,
) -> bool {
    exists|i: int|
        0 <= i < urls.len() && (body_of(bodies, #[trigger] urls[i]) matches Some(list)
            && filtering::list_gives(text::lines(list), as_allow, allow, rule))
}

/// Every list counts: after the lists at addresses the rules are those before and
/// those that a line of any of these lists gives, and no others.
pub proof fn law_lists_rules(
    rules: Rules,
    urls: Seq<Seq<char>>,
    bodies: Seq<(Seq<char>, Seq<char>)>,
    as_allow: bool,
    allow: bool,
    rule: Body,
)
    ensures
        filtering::has_rule(after_lists(rules, urls, bodies, as_allow), allow, rule)
            <==> filtering::has_rule(rules, allow, rule) || lists_give(
            urls,
            bodies,
            as_allow,
            allow,
            rule,
        ),
    decreases urls.len(),
{
    if urls.len() > 0 {
        let front = urls.drop_last();
        let n = urls.len() - 1;
        let before = after_lists(rules, front, bodies, as_allow);
        law_lists_rules(rules, front, bodies, as_allow, allow, rule);
        assert(urls.last() == urls[n]);
        if let Some(list) = body_of(bodies, urls[n]) {
            filtering::law_list_rules(before, text::lines(list), as_allow, allow, rule);
        }
        if lists_give(front, bodies, as_allow, allow, rule) {
            let i = choose|i: int|
                0 <= i < front.len() && (body_of(bodies, #[trigger] front[i]) matches Some(list)
                    && filtering::list_gives(text::lines(list), as_allow, allow, rule));
            assert(urls[i] == front[i]);
        }
        if lists_give(urls, bodies, as_allow, allow, rule) {
            let i = choose|i: int|
                0 <= i < urls.len() && (body_of(bodies, #[trigger] urls[i]) matches Some(list)
                    && filtering::list_gives(text::lines(list), as_allow, allow, rule));
            if i < n {
                assert(front[i] == urls[i]);
            }
        }
    }
}

/// Whether the configuration itself gives a rule: a line to block in the AdBlock
/// syntax does, a domain to allow, in lowercase and without trailing dots, and a
/// pattern that compiles.
pub open spec fn manually_given(m: MatchingConfig, allow: bool, rule: Body) -> bool {
    ||| exists|i: int|
        0 <= i < m.manual_block@.len() && filtering::line_gives(
            (#[trigger] m.manual_block@[i])@,
            ListFormat::AdBlock,
            false,
            allow,
            rule,
        )
    ||| exists|i: int|
        0 <= i < m.manual_allow@.len() && allow && rule == Body::Exact(
            text::without_trailing(text::lowercase((#[trigger] m.manual_allow@[i])@), '.'),
        )
    ||| exists|i: int|
        0 <= i < m.regex_block@.len() && !allow && rule == Body::Pattern(
            (#[trigger] m.regex_block@[i])@,
        ) && pattern::regex_takes(m.regex_block@[i]@)
    ||| exists|i: int|
        0 <= i < m.regex_allow@.len() && allow && rule == Body::Pattern(
            (#[trigger] m.regex_allow@[i])@,
        ) && pattern::regex_takes(m.regex_allow@[i]@)
}

proof fn lemma_blocks_rules(rules: Rules, lines: Seq<Seq<char>>, allow: bool, rule: Body)
    ensures
        filtering::has_rule(after_blocks(rules, lines), allow, rule) <==> filtering::has_rule(
            rules,
            allow,
            rule,
        ) || exists|i: int|
            0 <= i < lines.len() && filtering::line_gives(
                #[trigger] lines[i],
                ListFormat::AdBlock,
                false,
                allow,
                rule,
            ),
    decreases lines.len(),
{
    if lines.len() > 0 {
        let front = lines.drop_last();
        let n = lines.len() - 1;
        lemma_blocks_rules(rules, front, allow, rule);
        filtering::law_line_rules(
            after_blocks(rules, front),
            lines[n],
            ListFormat::AdBlock,
            false,
            allow,
            rule,
        );
        assert forall|i: int| 0 <= i < n implies #[trigger] front[i] == lines[i] by {}
        if exists|i: int|
            0 <= i < lines.len() && filtering::line_gives(
                #[trigger] lines[i],
                ListFormat::AdBlock,
                false,
                allow,
                rule,
            ) {
            let i = choose|i: int|
                0 <= i < lines.len() && filtering::line_gives(
                    #[trigger] lines[i],
                    ListFormat::AdBlock,
                    false,
                    allow,
                    rule,
                );
            if i < n {
                assert(front[i] == lines[i]);
            }
        }
    }
}

proof fn lemma_allows_rules(rules: Rules, domains: Seq<Seq<char>>, allow: bool, rule: Body)
    ensures
        filtering::has_rule(after_allows(rules, domains), allow, rule) <==> filtering::has_rule(
            rules,
            allow,
            rule,
        ) || exists|i: int|
            0 <= i < domains.len() && allow && rule == Body::Exact(
                text::without_trailing(text::lowercase(#[trigger] domains[i]), '.'),
            ),
    decreases domains.len(),
{
    if domains.len() > 0 {
        let front = domains.drop_last();
        let n = domains.len() - 1;
        lemma_allows_rules(rules, front, allow, rule);
        filtering::law_with_rule(
            after_allows(rules, front),
            true,
            Body::Exact(text::without_trailing(text::lowercase(domains[n]), '.')),
            allow,
            rule,
        );
        assert forall|i: int| 0 <= i < n implies #[trigger] front[i] == domains[i] by {}
        if exists|i: int|
            0 <= i < domains.len() && allow && rule == Body::Exact(
                text::without_trailing(text::lowercase(#[trigger] domains[i]), '.'),
            ) {
            let i = choose|i: int|
                0 <= i < domains.len() && allow && rule == Body::Exact(
                    text::without_trailing(text::lowercase(#[trigger] domains[i]), '.'),
                );
            if i < n {
                assert(front[i] == domains[i]);
            }
        }
    }
}

proof fn lemma_patterns_rules(
    rules: Rules,
    patterns: Seq<Seq<char>>,
    side: bool,
    allow: bool,
    rule: Body,
)
    ensures
        filtering::has_rule(after_patterns(rules, patterns, side), allow, rule)
            <==> filtering::has_rule(rules, allow, rule) || exists|i: int|
            0 <= i < patterns.len() && allow == side && rule == Body::Pattern(#[trigger] patterns[i])
                && pattern::regex_takes(patterns[i]),
    decreases patterns.len(),
{
    if patterns.len() > 0 {
        let front = patterns.drop_last();
        let n = patterns.len() - 1;
        lemma_patterns_rules(rules, front, side, allow, rule);
        filtering::law_with_rule(
            after_patterns(rules, front, side),
            side,
            Body::Pattern(patterns[n]),
            allow,
            rule,
        );
        assert forall|i: int| 0 <= i < n implies #[trigger] front[i] == patterns[i] by {}
        if exists|i: int|
            0 <= i < patterns.len() && allow == side && rule == Body::Pattern(
                #[trigger] patterns[i],
            ) && pattern::regex_takes(patterns[i]) {
            let i = choose|i: int|
                0 <= i < patterns.len() && allow == side && rule == Body::Pattern(
                    #[trigger] patterns[i],
                ) && pattern::regex_takes(patterns[i]);
            if i < n {
                assert(front[i] == patterns[i]);
            }
        }
    }
}

/// The rules of the configuration itself are those that it gives, each of them, and
/// no others.
pub proof fn law_manual_rules(m: MatchingConfig, allow: bool, rule: Body)
    ensures
        filtering::has_rule(manual_rules(m), allow, rule) <==> manually_given(m, allow, rule),
{
    let none = blocklist::no_rules();
    let blocks = text::texts(m.manual_block@);
    let allows = text::texts(m.manual_allow@);
    let block_patterns = text::texts(m.regex_block@);
    let allow_patterns = text::texts(m.regex_allow@);
    let one = after_blocks(none, blocks);
    let two = after_allows(one, allows);
    let three = after_patterns(two, block_patterns, false);
    lemma_blocks_rules(none, blocks, allow, rule);
    lemma_allows_rules(one, allows, allow, rule);
    lemma_patterns_rules(two, block_patterns, false, allow, rule);
    lemma_patterns_rules(three, allow_patterns, true, allow, rule);
    assert(!filtering::has_rule(none, allow, rule));
    assert forall|i: int| 0 <= i < blocks.len() implies #[trigger] blocks[i]
        == m.manual_block@[i]@ by {}
    assert forall|i: int| 0 <= i < allows.len() implies #[trigger] allows[i]
        == m.manual_allow@[i]@ by {}
    assert forall|i: int| 0 <= i < block_patterns.len() implies #[trigger] block_patterns[i]
        == m.regex_block@[i]@ by {}
    assert forall|i: int| 0 <= i < allow_patterns.len() implies #[trigger] allow_patterns[i]
        == m.regex_allow@[i]@ by {}
    assert forall|i: int| 0 <= i < blocks.len() implies blocks[i] == (
    #[trigger] m.manual_block@[i])@ by {}
    assert forall|i: int| 0 <= i < allows.len() implies allows[i] == (
    #[trigger] m.manual_allow@[i])@ by {}
    assert forall|i: int| 0 <= i < block_patterns.len() implies block_patterns[i] == (
    #[trigger] m.regex_block@[i])@ by {}
    assert forall|i: int| 0 <= i < allow_patterns.len() implies allow_patterns[i] == (
    #[trigger] m.regex_allow@[i])@ by {}
}

/// The rules that a configuration stands for are those that it gives itself, those
/// that a line of any of its blocklists gives, and those that a line of any of its
/// allowlists gives, which all allow; and no others.
pub proof fn law_configured_rules(
    c: Config,
    bodies: Seq<(Seq<char>, Seq<char>)>,
    allow: bool,
    rule: Body,
)
    ensures
        filtering::has_rule(configured_rules(c, bodies), allow, rule) <==> manually_given(
            c.matching,
            allow,
            rule,
        ) || lists_give(text::texts(c.blocklists.urls@), bodies, false, allow, rule)
            || lists_give(
            text::texts(c.blocklists.allowlist_urls@),
            bodies,
            true,
            allow,
            rule,
        ),
        lists_give(text::texts(c.blocklists.allowlist_urls@), bodies, true, allow, rule) ==> allow,
{
    let manual = manual_rules(c.matching);
    let urls = text::texts(c.blocklists.urls@);
    law_manual_rules(c.matching, allow, rule);
    law_lists_rules(manual, urls, bodies, false, allow, rule);
    law_lists_rules(
        after_lists(manual, urls, bodies, false),
        text::texts(c.blocklists.allowlist_urls@),
        bodies,
        true,
        allow,
        rule,
    );
}

/// A line of a list at any address of a blocklist that gives a block rule blocks
/// what the rule speaks of, unless some rule allows it; a line of a list at any
/// address of an allowlist that gives a rule allows what the rule speaks of.
pub proof fn law_listed_line_decides(
    c: Config,
    bodies: Seq<(Seq<char>, Seq<char>)>,
    i: int,
    list: Seq<char>,
    k: int,
    rule: Body,
    name: Seq<char>,
)
    requires
        0 <= k < text::lines(list).len(),
        filtering::speaks_of(rule, name),
    ensures
        ({
            let line = text::lines(list)[k];
            let format = blocklist::auto_format(line);
            let rules = configured_rules(c, bodies);
            &&& 0 <= i < c.blocklists.urls@.len() && body_of(bodies, c.blocklists.urls@[i]@)
                == Some(list) && filtering::line_gives(line, format, false, false, rule)
                && !filtering::allow_hit(rules, name) ==> blocklist::outcome(
                rules,
                name,
            ) is Blocked
            &&& 0 <= i < c.blocklists.allowlist_urls@.len() && body_of(
                bodies,
                c.blocklists.allowlist_urls@[i]@,
            ) == Some(list) && filtering::line_gives(line, format, true, true, rule)
                ==> blocklist::outcome(rules, name) is Allowed
        }),
{
    let line = text::lines(list)[k];
    let format = blocklist::auto_format(line);
    let rules = configured_rules(c, bodies);
    let urls = text::texts(c.blocklists.urls@);
    let allow_urls = text::texts(c.blocklists.allowlist_urls@);
    filtering::law_hits(rules, name);
    filtering::law_outcome(rules, name);
    law_configured_rules(c, bodies, false, rule);
    law_configured_rules(c, bodies, true, rule);
    if 0 <= i < c.blocklists.urls@.len() && body_of(bodies, c.blocklists.urls@[i]@) == Some(list)
        && filtering::line_gives(line, format, false, false, rule) {
        assert(urls[i] == c.blocklists.urls@[i]@);
        assert(filtering::list_gives(text::lines(list), false, false, rule));
        assert(lists_give(urls, bodies, false, false, rule));
        assert(filtering::has_rule(rules, false, rule));
    }
    if 0 <= i < c.blocklists.allowlist_urls@.len() && body_of(
        bodies,
        c.blocklists.allowlist_urls@[i]@,
    ) == Some(list) && filtering::line_gives(line, format, true, true, rule) {
        assert(allow_urls[i] == c.blocklists.allowlist_urls@[i]@);
        assert(filtering::list_gives(text::lines(list), true, true, rule));
        assert(lists_give(allow_urls, bodies, true, true, rule));
        assert(filtering::has_rule(rules, true, rule));
    }
}

/// A cached list is fresh for as long as is given for it, and where nothing is
/// given, until the next refresh.
pub proof fn law_ttl(b: BlocklistConfig)
    ensures
        b.cache_ttl_secs is Some ==> b.ttl() == b.cache_ttl_secs->Some_0,
        b.cache_ttl_secs is None ==> b.ttl() == b.refresh_interval_secs,
{
}

/// The rules of a configuration can be built exactly where no line to block is a lone
/// slash, and no line of any of its lists is one, blocklists and allowlists alike.
pub proof fn law_buildable(c: Config, bodies: Seq<(Seq<char>, Seq<char>)>)
    ensures
        buildable(c, bodies) <==> {
            &&& forall|i: int|
                0 <= i < c.matching.manual_block@.len() ==> !blocklist::lone_slash(
                    (#[trigger] c.matching.manual_block@[i])@,
                )
            &&& forall|i: int|
                0 <= i < c.blocklists.urls@.len() ==> no_lone_slash_at(
                    (#[trigger] c.blocklists.urls@[i])@,
                    bodies,
                )
            &&& forall|i: int|
                0 <= i < c.blocklists.allowlist_urls@.len() ==> no_lone_slash_at(
                    (#[trigger] c.blocklists.allowlist_urls@[i])@,
                    bodies,
                )
        },
{
    let blocks = text::texts(c.matching.manual_block@);
    assert forall|i: int| 0 <= i < blocks.len() implies #[trigger] blocks[i]
        == c.matching.manual_block@[i]@ by {}
    assert forall|i: int| 0 <= i < blocks.len() implies blocks[i] == (
    #[trigger] c.matching.manual_block@[i])@ by {}
    lemma_lists_buildable(c.blocklists.urls@, bodies);
    lemma_lists_buildable(c.blocklists.allowlist_urls@, bodies);
}

/// Whether no line of the list at an address is a lone slash.
pub open spec fn no_lone_slash_at(url: Seq<char>, bodies: Seq<(Seq<char>, Seq<char>)>) -> bool {
    body_of(bodies, url) is Some ==> forall|k: int|
        0 <= k < text::lines(body_of(bodies, url)->Some_0).len() ==> !blocklist::lone_slash(
            #[trigger] text::lines(body_of(bodies, url)->Some_0)[k],
        )
}

proof fn lemma_lists_buildable(urls: Seq<String>, bodies: Seq<(Seq<char>, Seq<char>)>)
    ensures
        lists_buildable(text::texts(urls), bodies) <==> forall|i: int|
            0 <= i < urls.len() ==> no_lone_slash_at((#[trigger] urls[i])@, bodies),
{
    let all = text::texts(urls);
    if lists_buildable(all, bodies) {
        assert forall|i: int| 0 <= i < urls.len() implies no_lone_slash_at(
            (#[trigger] urls[i])@,
            bodies,
        ) by {
            assert(all[i] == urls[i]@);
        }
    }
    if forall|i: int| 0 <= i < urls.len() ==> no_lone_slash_at((#[trigger] urls[i])@, bodies) {
        assert forall|i: int| 0 <= i < all.len() implies (body_of(bodies, #[trigger] all[i])
            matches Some(b) ==> !blocklist::some_lone_slash(b)) by {
            assert(all[i] == urls[i]@);
            assert(no_lone_slash_at(urls[i]@, bodies));
        }
    }
}

} // verus!
