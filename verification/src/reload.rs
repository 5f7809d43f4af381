//! What changes when the configuration is read again.
use vstd::prelude::*;
use crate::config::{BlocklistConfig, Config, MatchingConfig, ServerConfig, UpstreamConfig};
use crate::number;
use crate::text;

verus! {

/// One change, for the log.
#[derive(Debug, PartialEq, Eq)]
pub struct Note {
    /// Whether the change takes effect only after a restart.
    pub warn: bool,
    pub text: String,
}

/// One change, as a mathematical value.
#[verifier::ext_equal]
pub struct Change {
    pub warn: bool,
    pub text: Seq<char>,
}

impl View for Note {
    type V = Change;

    open spec fn view(&self) -> Change {
        Change { warn: self.warn, text: self.text@ }
    }
}

/// Views of changes.
pub open spec fn changes(v: Seq<Note>) -> Seq<Change> {
    v.map_values(|n: Note| n@)
}

// ---------------------------------------------------------------------------
// Addresses as text
// ---------------------------------------------------------------------------

/// An address of four parts as text.
pub open spec fn ip_text(a: Seq<u8>) -> Seq<char> {
    number::decimal(a[0] as int) + "."@ + number::decimal(a[1] as int) + "."@ + number::decimal(
        a[2] as int,
    ) + "."@ + number::decimal(a[3] as int)
}

/// A host and a port as text.
pub open spec fn endpoint_text(host: Seq<char>, port: u16) -> Seq<char> {
    host + ":"@ + number::decimal(port as int)
}

/// Where to listen, as text.
pub open spec fn server_text(s: ServerConfig) -> Seq<char> {
    endpoint_text(s.listen_addr@, s.listen_port)
}

/// The upstream resolver as text.
pub open spec fn upstream_text(u: UpstreamConfig) -> Seq<char> {
    endpoint_text(ip_text(u.address@), u.port)
}

/// Whether a truth value holds, as text.
pub open spec fn bool_text(b: bool) -> Seq<char> {
    if b {
        "true"@
    } else {
        "false"@
    }
}

/// Whether a truth value holds, as text.
fn bool_str(b: bool) -> (r: &'static str)
    ensures
        r@ == bool_text(b),
{
    if b {
        "true"
    } else {
        "false"
    }
}

/// An address of four parts as text.
fn ip_string(a: &[u8; 4]) -> (r: String)
    ensures
        r@ == ip_text(a@),
{
    let mut s = number::to_decimal(a[0] as u64);
    s.append(".");
    s.append(number::to_decimal(a[1] as u64).as_str());
    s.append(".");
    s.append(number::to_decimal(a[2] as u64).as_str());
    s.append(".");
    s.append(number::to_decimal(a[3] as u64).as_str());
    s
}

/// A host and a port as text.
fn endpoint(host: &str, port: u16) -> (r: String)
    ensures
        r@ == endpoint_text(host@, port),
{
    let mut s = host.to_owned();
    s.append(":");
    s.append(number::to_decimal(port as u64).as_str());
    s
}

/// Where to listen, as text.
pub fn listen_address(s: &ServerConfig) -> (r: String)
    ensures
        r@ == server_text(*s),
{
    endpoint(s.listen_addr.as_str(), s.listen_port)
}

/// The upstream resolver as text.
pub fn upstream_address(u: &UpstreamConfig) -> (r: String)
    ensures
        r@ == upstream_text(*u),
{
    endpoint(ip_string(&u.address).as_str(), u.port)
}

// ---------------------------------------------------------------------------
// Differences
// ---------------------------------------------------------------------------

/// The texts of `a` that are not among `b`, each once, in the order in which they
/// first occur.
pub open spec fn difference(a: Seq<Seq<char>>, b: Seq<Seq<char>>) -> Seq<Seq<char>>
    decreases a.len(),
{
    if a.len() == 0 {
        Seq::empty()
    } else {
        let front = difference(a.drop_last(), b);
        if b.contains(a.last()) || front.contains(a.last()) {
            front
        } else {
            front.push(a.last())
        }
    }
}

/// Whether a text is among texts.
fn is_among(v: &[String], s: &str) -> (r: bool)
    ensures
        r == text::texts(v@).contains(s@),
{
    let ghost all = text::texts(v@);
    for i in 0..v.len()
        invariant
            all == text::texts(v@),
            forall|j: int| 0 <= j < i ==> #[trigger] all[j] != s@,
    {
        assert(all[i as int] == v@[i as int]@);
        if text::same_text(v[i].as_str(), s) {
            return true;
        }
    }
    false
}

/// The texts of `a` that are not among `b`.
pub fn texts_only_in(a: &[String], b: &[String]) -> (r: Vec<String>)
    ensures
        text::texts(r@) == difference(text::texts(a@), text::texts(b@)),
{
    let ghost all = text::texts(a@);
    let mut out: Vec<String> = Vec::new();
    assert(text::texts(out@) =~= Seq::empty());
    for i in 0..a.len()
        invariant
            all == text::texts(a@),
            text::texts(out@) == difference(all.take(i as int), text::texts(b@)),
    {
        assert(all[i as int] == a@[i as int]@);
        assert(all.take(i + 1).drop_last() =~= all.take(i as int));
        if !is_among(b, a[i].as_str()) && !is_among(&out, a[i].as_str()) {
            let ghost before = out@;
            out.push(a[i].clone());
            assert(text::texts(out@) =~= text::texts(before).push(all[i as int]));
        }
    }
    assert(all.take(all.len() as int) =~= all);
    out
}

/// The changes that texts stand for.
pub open spec fn labelled(label: Seq<char>, v: Seq<Seq<char>>) -> Seq<Change> {
    v.map_values(|s: Seq<char>| Change { warn: false, text: label + s })
}

/// The changes between two runs of texts: what was added, then what was removed.
pub open spec fn list_changes(
    added: Seq<char>,
    removed: Seq<char>,
    before: Seq<String>,
    after: Seq<String>,
) -> Seq<Change> {
    labelled(added, difference(text::texts(after), text::texts(before))) + labelled(
        removed,
        difference(text::texts(before), text::texts(after)),
    )
}

/// A change, or none.
pub open spec fn change_if(changed: bool, warn: bool, text: Seq<char>) -> Seq<Change> {
    if changed {
        seq![Change { warn, text }]
    } else {
        Seq::empty()
    }
}

/// Changes of the lists.
pub open spec fn url_changes(old: BlocklistConfig, new: BlocklistConfig) -> Seq<Change> {
    list_changes("Blocklist added: "@, "Blocklist removed: "@, old.urls@, new.urls@)
        + list_changes(
        "Allowlist added: "@,
        "Allowlist removed: "@,
        old.allowlist_urls@,
        new.allowlist_urls@,
    )
}

/// Changes of the rules in the configuration itself.
pub open spec fn rule_changes(old: MatchingConfig, new: MatchingConfig) -> Seq<Change> {
    list_changes(
        "Manual block added: "@,
        "Manual block removed: "@,
        old.manual_block@,
        new.manual_block@,
    ) + list_changes(
        "Manual allow added: "@,
        "Manual allow removed: "@,
        old.manual_allow@,
        new.manual_allow@,
    ) + list_changes(
        "Regex block added: "@,
        "Regex block removed: "@,
        old.regex_block@,
        new.regex_block@,
    ) + list_changes(
        "Regex allow added: "@,
        "Regex allow removed: "@,
        old.regex_allow@,
        new.regex_allow@,
    )
}

/// Changes of addresses: the upstream resolver, then where to listen.
pub open spec fn address_changes(old: Config, new: Config) -> Seq<Change> {
    change_if(
        old.upstream.address@ != new.upstream.address@ || old.upstream.port != new.upstream.port,
        false,
        "Upstream: "@ + upstream_text(old.upstream) + " -> "@ + upstream_text(new.upstream)
            + " (use_tcp: "@ + bool_text(old.upstream.use_tcp) + " -> "@ + bool_text(
            new.upstream.use_tcp,
        ) + ")"@,
    ) + change_if(
        old.server.listen_addr@ != new.server.listen_addr@ || old.server.listen_port
            != new.server.listen_port,
        true,
        "Listen address changed: "@ + server_text(old.server) + " -> "@ + server_text(new.server)
            + " (requires restart to take effect)"@,
    )
}

/// Changes of single settings.
pub open spec fn setting_changes(old: Config, new: Config) -> Seq<Change> {
    change_if(
        old.blocklists.refresh_interval_secs != new.blocklists.refresh_interval_secs,
        false,
        "Blocklist refresh interval: "@ + number::decimal(
            old.blocklists.refresh_interval_secs as int,
        ) + "s -> "@ + number::decimal(new.blocklists.refresh_interval_secs as int) + "s"@,
    ) + change_if(
        old.cache.path@ != new.cache.path@,
        false,
        "Cache path: "@ + old.cache.path@ + " -> "@ + new.cache.path@,
    ) + change_if(
        old.logging.queries != new.logging.queries,
        false,
        "Query logging: "@ + bool_text(old.logging.queries) + " -> "@ + bool_text(
            new.logging.queries,
        ),
    )
}

/// Every change between two configurations.
pub open spec fn config_changes(old: Config, new: Config) -> Seq<Change> {
    address_changes(old, new) + url_changes(old.blocklists, new.blocklists) + setting_changes(
        old,
        new,
    ) + rule_changes(old.matching, new.matching)
}

/// Appends a change.
fn push_note(out: &mut Vec<Note>, warn: bool, text: String)
    ensures
        changes(final(out)@) == changes(old(out)@) + change_if(true, warn, text@),
{
    let ghost before = out@;
    let ghost t = text@;
    out.push(Note { warn, text });
    assert(changes(out@) =~= changes(before) + change_if(true, warn, t));
}

/// Appends the changes that texts stand for.
fn push_labelled(out: &mut Vec<Note>, label: &str, v: &[String])
    ensures
        changes(final(out)@) == changes(old(out)@) + labelled(label@, text::texts(v@)),
{
    let ghost start = changes(out@);
    let ghost all = labelled(label@, text::texts(v@));
    assert(start + all.take(0) =~= start);
    for i in 0..v.len()
        invariant
            all == labelled(label@, text::texts(v@)),
            changes(out@) == start + all.take(i as int),
    {
        let mut line = label.to_owned();
        line.append(v[i].as_str());
        assert(text::texts(v@)[i as int] == v@[i as int]@);
        push_note(out, false, line);
        assert(start + all.take(i + 1) =~= start + all.take(i as int) + change_if(
            true,
            false,
            all[i as int].text,
        ));
    }
    assert(all.take(all.len() as int) =~= all);
}

/// Appends the changes between two runs of texts.
fn push_list_changes(
    out: &mut Vec<Note>,
    added: &str,
    removed: &str,
    before: &[String],
    after: &[String],
)
    ensures
        changes(final(out)@) == changes(old(out)@) + list_changes(
            added@,
            removed@,
            before@,
            after@,
        ),
{
    let ghost start = changes(out@);
    let more = texts_only_in(after, before);
    let fewer = texts_only_in(before, after);
    push_labelled(out, added, &more);
    push_labelled(out, removed, &fewer);
    assert(changes(out@) =~= start + list_changes(added@, removed@, before@, after@));
}

/// Whether two addresses of four parts are the same.
fn same_ip(a: &[u8; 4], b: &[u8; 4]) -> (r: bool)
    ensures
        r == (a@ == b@),
{
    let r = a[0] == b[0] && a[1] == b[1] && a[2] == b[2] && a[3] == b[3];
    assert(r ==> a@ =~= b@);
    r
}

/// Whether upstream has to be reached in another place.
pub fn upstream_moved(old: &UpstreamConfig, new: &UpstreamConfig) -> (r: bool)
    ensures
        r == (old.address@ != new.address@ || old.port != new.port),
{
    !same_ip(&old.address, &new.address) || old.port != new.port
}

/// What becomes of a reload.
#[derive(Debug, Clone, Copy, PartialEq, Eq, Structural)]
pub enum ReloadAction {
    /// Everything stays as it is: configuration, connections and rules.
    Keep,
    /// The new configuration comes into force, and the rules are built anew.
    Apply {
        /// Whether the connections to upstream are replaced.
        replace_pool: bool,
        /// Whether queries are logged from then on.
        log_queries: bool,
    },
}

/// What becomes of a reload. Where no usable configuration was read, everything
/// stays; otherwise the new one comes into force, and the connections to upstream
/// are replaced exactly where it is reached in another place.
pub fn reload_step(current: &UpstreamConfig, loaded: Option<&Config>) -> (r: ReloadAction)
    ensures
        r is Keep <==> loaded is None,
        loaded matches Some(c) ==> r == (ReloadAction::Apply {
            replace_pool: current.address@ != c.upstream.address@ || current.port
                != c.upstream.port,
            log_queries: c.logging.queries,
        }),
{
    match loaded {
        None => ReloadAction::Keep,
        Some(c) => ReloadAction::Apply {
            replace_pool: upstream_moved(current, &c.upstream),
            log_queries: c.logging.queries,
        },
    }
}

/// Appends changes of addresses.
fn push_address_changes(out: &mut Vec<Note>, before: &Config, after: &Config)
    ensures
        changes(final(out)@) == changes(old(out)@) + address_changes(*before, *after),
{
    let ghost start = changes(out@);
    if upstream_moved(&before.upstream, &after.upstream) {
        let mut s = "Upstream: ".to_owned();
        s.append(upstream_address(&before.upstream).as_str());
        s.append(" -> ");
        s.append(upstream_address(&after.upstream).as_str());
        s.append(" (use_tcp: ");
        s.append(bool_str(before.upstream.use_tcp));
        s.append(" -> ");
        s.append(bool_str(after.upstream.use_tcp));
        s.append(")");
        push_note(out, false, s);
    }
    if !text::same_text(before.server.listen_addr.as_str(), after.server.listen_addr.as_str())
        || before.server.listen_port != after.server.listen_port {
        let mut s = "Listen address changed: ".to_owned();
        s.append(listen_address(&before.server).as_str());
        s.append(" -> ");
        s.append(listen_address(&after.server).as_str());
        s.append(" (requires restart to take effect)");
        push_note(out, true, s);
    }
    assert(changes(out@) =~= start + address_changes(*before, *after));
}

/// Appends changes of single settings.
fn push_setting_changes(out: &mut Vec<Note>, before: &Config, after: &Config)
    ensures
        changes(final(out)@) == changes(old(out)@) + setting_changes(*before, *after),
{
    let ghost start = changes(out@);
    let a: u64 = before.blocklists.refresh_interval_secs;
    let b: u64 = after.blocklists.refresh_interval_secs;
    if a != b {
        let mut s = "Blocklist refresh interval: ".to_owned();
        s.append(number::to_decimal(a).as_str());
        s.append("s -> ");
        s.append(number::to_decimal(b).as_str());
        s.append("s");
        push_note(out, false, s);
    }
    if !text::same_text(before.cache.path.as_str(), after.cache.path.as_str()) {
        let mut s = "Cache path: ".to_owned();
        s.append(before.cache.path.as_str());
        s.append(" -> ");
        s.append(after.cache.path.as_str());
        push_note(out, false, s);
    }
    if before.logging.queries != after.logging.queries {
        let mut s = "Query logging: ".to_owned();
        s.append(bool_str(before.logging.queries));
        s.append(" -> ");
        s.append(bool_str(after.logging.queries));
        push_note(out, false, s);
    }
    assert(changes(out@) =~= start + setting_changes(*before, *after));
}

/// Every change between two configurations, for the log.
pub fn describe_changes(before: &Config, after: &Config) -> (r: Vec<Note>)
    ensures
        changes(r@) == config_changes(*before, *after),
{
    let mut out: Vec<Note> = Vec::new();
    assert(changes(out@) =~= Seq::empty());
    push_address_changes(&mut out, before, after);
    let a = &before.blocklists;
    let b = &after.blocklists;
    push_list_changes(&mut out, "Blocklist added: ", "Blocklist removed: ", &a.urls, &b.urls);
    push_list_changes(
        &mut out,
        "Allowlist added: ",
        "Allowlist removed: ",
        &a.allowlist_urls,
        &b.allowlist_urls,
    );
    push_setting_changes(&mut out, before, after);
    let a = &before.matching;
    let b = &after.matching;
    push_list_changes(
        &mut out,
        "Manual block added: ",
        "Manual block removed: ",
        &a.manual_block,
        &b.manual_block,
    );
    push_list_changes(
        &mut out,
        "Manual allow added: ",
        "Manual allow removed: ",
        &a.manual_allow,
        &b.manual_allow,
    );
    push_list_changes(
        &mut out,
        "Regex block added: ",
        "Regex block removed: ",
        &a.regex_block,
        &b.regex_block,
    );
    push_list_changes(
        &mut out,
        "Regex allow added: ",
        "Regex allow removed: ",
        &a.regex_allow,
        &b.regex_allow,
    );
    assert(changes(out@) =~= config_changes(*before, *after));
    out
}

// ---------------------------------------------------------------------------
// What the changes promise
// ---------------------------------------------------------------------------

/// A text is reported exactly where it is in the one run and not in the other,
/// and none is reported twice.
pub proof fn law_difference(a: Seq<Seq<char>>, b: Seq<Seq<char>>)
    ensures
        forall|s: Seq<char>| #[trigger]
            difference(a, b).contains(s) <==> a.contains(s) && !b.contains(s),
        difference(a, b).no_duplicates(),
    decreases a.len(),
{
    if a.len() > 0 {
        let front = a.drop_last();
        law_difference(front, b);
        let d = difference(front, b);
        let x = a.last();
        assert(a =~= front.push(x));
        assert forall|s: Seq<char>| #[trigger]
            difference(a, b).contains(s) <==> a.contains(s) && !b.contains(s) by {
            lemma_push_contains(front, x, s);
            lemma_push_contains(d, x, s);
            assert(d.contains(s) <==> front.contains(s) && !b.contains(s));
            assert(d.contains(x) <==> front.contains(x) && !b.contains(x));
        }
        if !b.contains(x) && !d.contains(x) {
            let e = d.push(x);
            assert forall|i: int, j: int| 0 <= i < e.len() && 0 <= j < e.len() && i != j implies e[i]
                != e[j] by {
                if i < d.len() && j < d.len() {
                    assert(d[i] != d[j]);
                } else if i < d.len() {
                    assert(d.contains(d[i]));
                } else if j < d.len() {
                    assert(d.contains(d[j]));
                }
            }
        }
    }
}

proof fn lemma_push_contains(v: Seq<Seq<char>>, x: Seq<char>, s: Seq<char>)
    ensures
        v.push(x).contains(s) <==> v.contains(s) || s == x,
{
    if v.contains(s) {
        let k = v.index_of(s);
        assert(v.push(x)[k] == s);
    }
    assert(v.push(x)[v.len() as int] == x);
    if v.push(x).contains(s) && s != x {
        let k = v.push(x).index_of(s);
        assert(v[k] == s);
    }
}

/// Between a configuration and itself there is no change.
pub proof fn law_same_config_no_changes(c: Config)
    ensures
        config_changes(c, c).len() == 0,
{
    lemma_no_difference(text::texts(c.blocklists.urls@));
    lemma_no_difference(text::texts(c.blocklists.allowlist_urls@));
    lemma_no_difference(text::texts(c.matching.manual_block@));
    lemma_no_difference(text::texts(c.matching.manual_allow@));
    lemma_no_difference(text::texts(c.matching.regex_block@));
    lemma_no_difference(text::texts(c.matching.regex_allow@));
}

proof fn lemma_no_difference(a: Seq<Seq<char>>)
    ensures
        difference(a, a).len() == 0,
{
    law_difference(a, a);
    if difference(a, a).len() > 0 {
        assert(difference(a, a).contains(difference(a, a)[0]));
    }
}

/// Whether a change is told, and takes effect without a restart.
pub open spec fn told(v: Seq<Change>, text: Seq<char>) -> bool {
    v.contains(Change { warn: false, text })
}

/// What is told of two runs of texts: of each text that is in the one alone that it was
/// added, of each that is in the other alone that it was removed, and as many changes as
/// there are such texts.
pub proof fn law_list_changes(
    added: Seq<char>,
    removed: Seq<char>,
    before: Seq<String>,
    after: Seq<String>,
    s: Seq<char>,
)
    ensures
        text::texts(after).contains(s) && !text::texts(before).contains(s) ==> told(
            list_changes(added, removed, before, after),
            added + s,
        ),
        text::texts(before).contains(s) && !text::texts(after).contains(s) ==> told(
            list_changes(added, removed, before, after),
            removed + s,
        ),
        list_changes(added, removed, before, after).len() == difference(
            text::texts(after),
            text::texts(before),
        ).len() + difference(text::texts(before), text::texts(after)).len(),
        forall|c: Change| #[trigger]
            list_changes(added, removed, before, after).contains(c) ==> !c.warn,
{
    let old_texts = text::texts(before);
    let new_texts = text::texts(after);
    let more = difference(new_texts, old_texts);
    let fewer = difference(old_texts, new_texts);
    let all = list_changes(added, removed, before, after);
    law_difference(new_texts, old_texts);
    law_difference(old_texts, new_texts);
    assert(more.contains(s) <==> new_texts.contains(s) && !old_texts.contains(s));
    assert(fewer.contains(s) <==> old_texts.contains(s) && !new_texts.contains(s));
    if more.contains(s) {
        let k = more.index_of(s);
        assert(all[k] == (Change { warn: false, text: added + s }));
    }
    if fewer.contains(s) {
        let k = fewer.index_of(s);
        assert(all[more.len() + k] == (Change { warn: false, text: removed + s }));
    }
    assert forall|c: Change| #[trigger] all.contains(c) implies !c.warn by {
        let k = all.index_of(c);
        if k < more.len() {
            assert(all[k] == labelled(added, more)[k]);
        } else {
            assert(all[k] == labelled(removed, fewer)[k - more.len()]);
        }
    }
}

/// The texts that are only in the one run are told in the order in which they stand
/// there.
pub proof fn law_difference_in_order(a: Seq<Seq<char>>, x: Seq<char>, b: Seq<Seq<char>>)
    ensures
        a.contains(x) || b.contains(x) ==> difference(a.push(x), b) == difference(a, b),
        !a.contains(x) && !b.contains(x) ==> difference(a.push(x), b) == difference(a, b).push(x),
{
    assert(a.push(x).drop_last() =~= a);
    law_difference(a, b);
    assert(difference(a, b).contains(x) <==> a.contains(x) && !b.contains(x));
}

proof fn lemma_told_in(a: Seq<Change>, v: Seq<Change>, b: Seq<Change>, c: Change)
    requires
        v.contains(c),
    ensures
        (a + v + b).contains(c),
{
    let k = v.index_of(c);
    assert((a + v + b)[a.len() + k] == c);
}

/// Every text that was added to a part of the configuration is told under the name of
/// that part.
pub proof fn law_additions_told(old: Config, new: Config, s: Seq<char>)
    ensures
        added_text(old.blocklists.urls@, new.blocklists.urls@, s) ==> told(
            config_changes(old, new),
            "Blocklist added: "@ + s,
        ),
        added_text(old.blocklists.allowlist_urls@, new.blocklists.allowlist_urls@, s) ==> told(
            config_changes(old, new),
            "Allowlist added: "@ + s,
        ),
        added_text(old.matching.manual_block@, new.matching.manual_block@, s) ==> told(
            config_changes(old, new),
            "Manual block added: "@ + s,
        ),
        added_text(old.matching.manual_allow@, new.matching.manual_allow@, s) ==> told(
            config_changes(old, new),
            "Manual allow added: "@ + s,
        ),
        added_text(old.matching.regex_block@, new.matching.regex_block@, s) ==> told(
            config_changes(old, new),
            "Regex block added: "@ + s,
        ),
        added_text(old.matching.regex_allow@, new.matching.regex_allow@, s) ==> told(
            config_changes(old, new),
            "Regex allow added: "@ + s,
        ),
{
    lemma_parts_told(old, new);
    lemma_list_told(
        "Blocklist added: "@,
        "Blocklist removed: "@,
        old.blocklists.urls@,
        new.blocklists.urls@,
        s,
        config_changes(old, new),
    );
    lemma_list_told(
        "Allowlist added: "@,
        "Allowlist removed: "@,
        old.blocklists.allowlist_urls@,
        new.blocklists.allowlist_urls@,
        s,
        config_changes(old, new),
    );
    lemma_list_told(
        "Manual block added: "@,
        "Manual block removed: "@,
        old.matching.manual_block@,
        new.matching.manual_block@,
        s,
        config_changes(old, new),
    );
    lemma_list_told(
        "Manual allow added: "@,
        "Manual allow removed: "@,
        old.matching.manual_allow@,
        new.matching.manual_allow@,
        s,
        config_changes(old, new),
    );
    lemma_list_told(
        "Regex block added: "@,
        "Regex block removed: "@,
        old.matching.regex_block@,
        new.matching.regex_block@,
        s,
        config_changes(old, new),
    );
    lemma_list_told(
        "Regex allow added: "@,
        "Regex allow removed: "@,
        old.matching.regex_allow@,
        new.matching.regex_allow@,
        s,
        config_changes(old, new),
    );
}

/// Every text that was removed from a part of the configuration is told under the name
/// of that part.
pub proof fn law_removals_told(old: Config, new: Config, s: Seq<char>)
    ensures
        added_text(new.blocklists.urls@, old.blocklists.urls@, s) ==> told(
            config_changes(old, new),
            "Blocklist removed: "@ + s,
        ),
        added_text(new.blocklists.allowlist_urls@, old.blocklists.allowlist_urls@, s) ==> told(
            config_changes(old, new),
            "Allowlist removed: "@ + s,
        ),
        added_text(new.matching.manual_block@, old.matching.manual_block@, s) ==> told(
            config_changes(old, new),
            "Manual block removed: "@ + s,
        ),
        added_text(new.matching.manual_allow@, old.matching.manual_allow@, s) ==> told(
            config_changes(old, new),
            "Manual allow removed: "@ + s,
        ),
        added_text(new.matching.regex_block@, old.matching.regex_block@, s) ==> told(
            config_changes(old, new),
            "Regex block removed: "@ + s,
        ),
        added_text(new.matching.regex_allow@, old.matching.regex_allow@, s) ==> told(
            config_changes(old, new),
            "Regex allow removed: "@ + s,
        ),
{
    lemma_parts_told(old, new);
    lemma_list_told(
        "Blocklist added: "@,
        "Blocklist removed: "@,
        old.blocklists.urls@,
        new.blocklists.urls@,
        s,
        config_changes(old, new),
    );
    lemma_list_told(
        "Allowlist added: "@,
        "Allowlist removed: "@,
        old.blocklists.allowlist_urls@,
        new.blocklists.allowlist_urls@,
        s,
        config_changes(old, new),
    );
    lemma_list_told(
        "Manual block added: "@,
        "Manual block removed: "@,
        old.matching.manual_block@,
        new.matching.manual_block@,
        s,
        config_changes(old, new),
    );
    lemma_list_told(
        "Manual allow added: "@,
        "Manual allow removed: "@,
        old.matching.manual_allow@,
        new.matching.manual_allow@,
        s,
        config_changes(old, new),
    );
    lemma_list_told(
        "Regex block added: "@,
        "Regex block removed: "@,
        old.matching.regex_block@,
        new.matching.regex_block@,
        s,
        config_changes(old, new),
    );
    lemma_list_told(
        "Regex allow added: "@,
        "Regex allow removed: "@,
        old.matching.regex_allow@,
        new.matching.regex_allow@,
        s,
        config_changes(old, new),
    );
}

/// Whether a text is in the one run and not in the other.
pub open spec fn added_text(before: Seq<String>, after: Seq<String>, s: Seq<char>) -> bool {
    text::texts(after).contains(s) && !text::texts(before).contains(s)
}

/// Whether all changes of one run are among those of another.
spec fn all_in(v: Seq<Change>, all: Seq<Change>) -> bool {
    forall|c: Change| #[trigger] v.contains(c) ==> all.contains(c)
}

proof fn lemma_list_told(
    added: Seq<char>,
    removed: Seq<char>,
    before: Seq<String>,
    after: Seq<String>,
    s: Seq<char>,
    all: Seq<Change>,
)
    requires
        all_in(list_changes(added, removed, before, after), all),
    ensures
        added_text(before, after, s) ==> told(all, added + s),
        added_text(after, before, s) ==> told(all, removed + s),
{
    let v = list_changes(added, removed, before, after);
    law_list_changes(added, removed, before, after, s);
    if added_text(before, after, s) {
        assert(v.contains(Change { warn: false, text: added + s }));
    }
    if added_text(after, before, s) {
        assert(v.contains(Change { warn: false, text: removed + s }));
    }
}

proof fn lemma_parts_told(old: Config, new: Config)
    ensures
        ({
            let all = config_changes(old, new);
            let a = old.blocklists;
            let b = new.blocklists;
            let m = old.matching;
            let n = new.matching;
            &&& all_in(
                list_changes(
                    "Blocklist added: "@,
                    "Blocklist removed: "@,
                    a.urls@,
                    b.urls@,
                ),
                all,
            )
            &&& all_in(
                list_changes(
                    "Allowlist added: "@,
                    "Allowlist removed: "@,
                    a.allowlist_urls@,
                    b.allowlist_urls@,
                ),
                all,
            )
            &&& all_in(
                list_changes(
                    "Manual block added: "@,
                    "Manual block removed: "@,
                    m.manual_block@,
                    n.manual_block@,
                ),
                all,
            )
            &&& all_in(
                list_changes(
                    "Manual allow added: "@,
                    "Manual allow removed: "@,
                    m.manual_allow@,
                    n.manual_allow@,
                ),
                all,
            )
            &&& all_in(
                list_changes(
                    "Regex block added: "@,
                    "Regex block removed: "@,
                    m.regex_block@,
                    n.regex_block@,
                ),
                all,
            )
            &&& all_in(
                list_changes(
                    "Regex allow added: "@,
                    "Regex allow removed: "@,
                    m.regex_allow@,
                    n.regex_allow@,
                ),
                all,
            )
            &&& all_in(address_changes(old, new), all)
            &&& all_in(setting_changes(old, new), all)
        }),
{
    let all = config_changes(old, new);
    let a = old.blocklists;
    let b = new.blocklists;
    let m = old.matching;
    let n = new.matching;
    let none = Seq::<Change>::empty();
    let addresses = address_changes(old, new);
    let settings = setting_changes(old, new);
    let p1 = list_changes("Blocklist added: "@, "Blocklist removed: "@, a.urls@, b.urls@);
    let p2 = list_changes(
        "Allowlist added: "@,
        "Allowlist removed: "@,
        a.allowlist_urls@,
        b.allowlist_urls@,
    );
    let q1 = list_changes(
        "Manual block added: "@,
        "Manual block removed: "@,
        m.manual_block@,
        n.manual_block@,
    );
    let q2 = list_changes(
        "Manual allow added: "@,
        "Manual allow removed: "@,
        m.manual_allow@,
        n.manual_allow@,
    );
    let q3 = list_changes(
        "Regex block added: "@,
        "Regex block removed: "@,
        m.regex_block@,
        n.regex_block@,
    );
    let q4 = list_changes(
        "Regex allow added: "@,
        "Regex allow removed: "@,
        m.regex_allow@,
        n.regex_allow@,
    );
    let head = addresses + p1 + p2 + settings;
    assert(all =~= head + q1 + q2 + q3 + q4);
    assert forall|c: Change| #[trigger] addresses.contains(c) implies all.contains(c) by {
        lemma_told_in(none, addresses, p1 + p2 + settings + q1 + q2 + q3 + q4, c);
        assert(none + addresses + (p1 + p2 + settings + q1 + q2 + q3 + q4) =~= all);
    }
    assert forall|c: Change| #[trigger] p1.contains(c) implies all.contains(c) by {
        lemma_told_in(addresses, p1, p2 + settings + q1 + q2 + q3 + q4, c);
        assert(addresses + p1 + (p2 + settings + q1 + q2 + q3 + q4) =~= all);
    }
    assert forall|c: Change| #[trigger] p2.contains(c) implies all.contains(c) by {
        lemma_told_in(addresses + p1, p2, settings + q1 + q2 + q3 + q4, c);
        assert(addresses + p1 + p2 + (settings + q1 + q2 + q3 + q4) =~= all);
    }
    assert forall|c: Change| #[trigger] settings.contains(c) implies all.contains(c) by {
        lemma_told_in(addresses + p1 + p2, settings, q1 + q2 + q3 + q4, c);
        assert(addresses + p1 + p2 + settings + (q1 + q2 + q3 + q4) =~= all);
    }
    assert forall|c: Change| #[trigger] q1.contains(c) implies all.contains(c) by {
        lemma_told_in(head, q1, q2 + q3 + q4, c);
        assert(head + q1 + (q2 + q3 + q4) =~= all);
    }
    assert forall|c: Change| #[trigger] q2.contains(c) implies all.contains(c) by {
        lemma_told_in(head + q1, q2, q3 + q4, c);
        assert(head + q1 + q2 + (q3 + q4) =~= all);
    }
    assert forall|c: Change| #[trigger] q3.contains(c) implies all.contains(c) by {
        lemma_told_in(head + q1 + q2, q3, q4, c);
        assert(head + q1 + q2 + q3 + q4 =~= all);
    }
    assert forall|c: Change| #[trigger] q4.contains(c) implies all.contains(c) by {
        lemma_told_in(head + q1 + q2 + q3, q4, none, c);
        assert(head + q1 + q2 + q3 + q4 + none =~= all);
    }
}

/// A resolver in another place is told, from where to where.
pub proof fn law_upstream_told(old: Config, new: Config)
    requires
        old.upstream.address@ != new.upstream.address@ || old.upstream.port != new.upstream.port,
    ensures
        told(
            config_changes(old, new),
            "Upstream: "@ + endpoint_text(ip_text(old.upstream.address@), old.upstream.port)
                + " -> "@ + endpoint_text(ip_text(new.upstream.address@), new.upstream.port)
                + " (use_tcp: "@ + bool_text(old.upstream.use_tcp) + " -> "@ + bool_text(
                new.upstream.use_tcp,
            ) + ")"@,
        ),
        bool_text(true) == "true"@,
        bool_text(false) == "false"@,
{
    lemma_parts_told(old, new);
    let addresses = address_changes(old, new);
    assert(addresses.contains(addresses[0]));
}

/// Another address to listen on is told, from which to which, with a warning, for it
/// takes a restart.
pub proof fn law_listening_told(old: Config, new: Config)
    requires
        old.server.listen_addr@ != new.server.listen_addr@ || old.server.listen_port
            != new.server.listen_port,
    ensures
        config_changes(old, new).contains(
            Change {
                warn: true,
                text: "Listen address changed: "@ + endpoint_text(
                    old.server.listen_addr@,
                    old.server.listen_port,
                ) + " -> "@ + endpoint_text(new.server.listen_addr@, new.server.listen_port)
                    + " (requires restart to take effect)"@,
            },
        ),
{
    lemma_parts_told(old, new);
    let addresses = address_changes(old, new);
    assert(addresses.contains(addresses[addresses.len() - 1]));
}

/// Another refresh interval, path of the cache or choice to log queries is told, from
/// what to what.
pub proof fn law_settings_told(old: Config, new: Config)
    ensures
        old.blocklists.refresh_interval_secs != new.blocklists.refresh_interval_secs ==> told(
            config_changes(old, new),
            "Blocklist refresh interval: "@ + number::decimal(
                old.blocklists.refresh_interval_secs as int,
            ) + "s -> "@ + number::decimal(new.blocklists.refresh_interval_secs as int) + "s"@,
        ),
        old.cache.path@ != new.cache.path@ ==> told(
            config_changes(old, new),
            "Cache path: "@ + old.cache.path@ + " -> "@ + new.cache.path@,
        ),
        !old.logging.queries && new.logging.queries ==> told(
            config_changes(old, new),
            "Query logging: "@ + "false"@ + " -> "@ + "true"@,
        ),
        old.logging.queries && !new.logging.queries ==> told(
            config_changes(old, new),
            "Query logging: "@ + "true"@ + " -> "@ + "false"@,
        ),
{
    lemma_parts_told(old, new);
    let settings = setting_changes(old, new);
    let k: int = if old.blocklists.refresh_interval_secs != new.blocklists.refresh_interval_secs {
        1
    } else {
        0
    };
    if old.blocklists.refresh_interval_secs != new.blocklists.refresh_interval_secs {
        assert(settings.contains(settings[0]));
    }
    if old.cache.path@ != new.cache.path@ {
        assert(settings.contains(settings[k]));
    }
    if old.logging.queries != new.logging.queries {
        assert(settings.contains(settings[settings.len() - 1]));
    }
}

/// No change comes with a warning unless the address to listen on has changed.
pub proof fn law_warnings(old: Config, new: Config)
    ensures
        (exists|c: Change| #[trigger] config_changes(old, new).contains(c) && c.warn) ==> (
        old.server.listen_addr@ != new.server.listen_addr@ || old.server.listen_port
            != new.server.listen_port),
{
    let a = old.blocklists;
    let b = new.blocklists;
    let m = old.matching;
    let n = new.matching;
    let none = Seq::<char>::empty();
    law_list_changes("Blocklist added: "@, "Blocklist removed: "@, a.urls@, b.urls@, none);
    law_list_changes(
        "Allowlist added: "@,
        "Allowlist removed: "@,
        a.allowlist_urls@,
        b.allowlist_urls@,
        none,
    );
    law_list_changes(
        "Manual block added: "@,
        "Manual block removed: "@,
        m.manual_block@,
        n.manual_block@,
        none,
    );
    law_list_changes(
        "Manual allow added: "@,
        "Manual allow removed: "@,
        m.manual_allow@,
        n.manual_allow@,
        none,
    );
    law_list_changes(
        "Regex block added: "@,
        "Regex block removed: "@,
        m.regex_block@,
        n.regex_block@,
        none,
    );
    law_list_changes(
        "Regex allow added: "@,
        "Regex allow removed: "@,
        m.regex_allow@,
        n.regex_allow@,
        none,
    );
    let p1 = list_changes("Blocklist added: "@, "Blocklist removed: "@, a.urls@, b.urls@);
    let p2 = list_changes(
        "Allowlist added: "@,
        "Allowlist removed: "@,
        a.allowlist_urls@,
        b.allowlist_urls@,
    );
    let q1 = list_changes(
        "Manual block added: "@,
        "Manual block removed: "@,
        m.manual_block@,
        n.manual_block@,
    );
    let q2 = list_changes(
        "Manual allow added: "@,
        "Manual allow removed: "@,
        m.manual_allow@,
        n.manual_allow@,
    );
    let q3 = list_changes(
        "Regex block added: "@,
        "Regex block removed: "@,
        m.regex_block@,
        n.regex_block@,
    );
    let q4 = list_changes(
        "Regex allow added: "@,
        "Regex allow removed: "@,
        m.regex_allow@,
        n.regex_allow@,
    );
    let addresses = address_changes(old, new);
    let settings = setting_changes(old, new);
    let urls = p1 + p2;
    let rules = q1 + q2 + q3 + q4;
    if !(old.server.listen_addr@ != new.server.listen_addr@ || old.server.listen_port
        != new.server.listen_port) {
        lemma_calm_parts(p1, p2);
        lemma_calm_parts(q1, q2);
        lemma_calm_parts(q1 + q2, q3);
        lemma_calm_parts(q1 + q2 + q3, q4);
        lemma_calm_parts(addresses, urls);
        lemma_calm_parts(addresses + urls, settings);
        lemma_calm_parts(addresses + urls + settings, rules);
    }
}

proof fn lemma_calm_parts(a: Seq<Change>, b: Seq<Change>)
    requires
        forall|c: Change| #[trigger] a.contains(c) ==> !c.warn,
        forall|c: Change| #[trigger] b.contains(c) ==> !c.warn,
    ensures
        forall|c: Change| #[trigger] (a + b).contains(c) ==> !c.warn,
{
    assert forall|c: Change| #[trigger] (a + b).contains(c) implies !c.warn by {
        let k = (a + b).index_of(c);
        if k < a.len() {
            assert(a[k] == c);
            assert(a.contains(c));
        } else {
            assert(b[k - a.len()] == c);
            assert(b.contains(c));
        }
    }
}

/// As many changes are told as there are.
pub proof fn law_change_count(old: Config, new: Config)
    ensures
        config_changes(old, new).len() == texts_changed(old.blocklists.urls@, new.blocklists.urls@)
            + texts_changed(old.blocklists.allowlist_urls@, new.blocklists.allowlist_urls@)
            + texts_changed(old.matching.manual_block@, new.matching.manual_block@)
            + texts_changed(old.matching.manual_allow@, new.matching.manual_allow@)
            + texts_changed(old.matching.regex_block@, new.matching.regex_block@) + texts_changed(
            old.matching.regex_allow@,
            new.matching.regex_allow@,
        ) + one_if(
            old.upstream.address@ != new.upstream.address@ || old.upstream.port
                != new.upstream.port,
        ) + one_if(
            old.server.listen_addr@ != new.server.listen_addr@ || old.server.listen_port
                != new.server.listen_port,
        ) + one_if(
            old.blocklists.refresh_interval_secs != new.blocklists.refresh_interval_secs,
        ) + one_if(old.cache.path@ != new.cache.path@) + one_if(
            old.logging.queries != new.logging.queries,
        ),
{
}

/// How many texts are in the one run alone and in the other alone.
pub open spec fn texts_changed(before: Seq<String>, after: Seq<String>) -> int {
    difference(text::texts(after), text::texts(before)).len() as int + difference(
        text::texts(before),
        text::texts(after),
    ).len()
}

/// One where something holds, else zero.
pub open spec fn one_if(b: bool) -> int {
    if b {
        1
    } else {
        0
    }
}

/// An address of four parts is its parts in decimal with dots between them, and a place
/// is its host and its port with a colon between them.
pub proof fn law_addresses_as_text(a: Seq<u8>, host: Seq<char>, port: u16)
    requires
        a.len() == 4,
    ensures
        text::pieces(ip_text(a), '.') == seq![
            number::decimal(a[0] as int),
            number::decimal(a[1] as int),
            number::decimal(a[2] as int),
            number::decimal(a[3] as int),
        ],
        endpoint_text(host, port).take(host.len() as int) == host,
        endpoint_text(host, port)[host.len() as int] == ':',
        endpoint_text(host, port).skip(host.len() as int + 1) == number::decimal(port as int),
{
    reveal_strlit(".");
    reveal_strlit(":");
    let p = number::decimal(a[0] as int);
    let q = number::decimal(a[1] as int);
    let r = number::decimal(a[2] as int);
    let s = number::decimal(a[3] as int);
    number::lemma_decimal(a[0] as int);
    number::lemma_decimal(a[1] as int);
    number::lemma_decimal(a[2] as int);
    number::lemma_decimal(a[3] as int);
    lemma_digits_single(p);
    lemma_digits_single(q);
    lemma_digits_single(r);
    lemma_digits_single(s);
    let rs = r.push('.') + s;
    let qrs = q.push('.') + rs;
    text::lemma_pieces_concat(r, s, '.');
    text::lemma_pieces_concat(q, rs, '.');
    text::lemma_pieces_concat(p, qrs, '.');
    assert(ip_text(a) =~= p.push('.') + qrs);
    assert(text::pieces(ip_text(a), '.') =~= seq![p, q, r, s]);
    let e = endpoint_text(host, port);
    assert(e.take(host.len() as int) =~= host);
    assert(e.skip(host.len() as int + 1) =~= number::decimal(port as int));
}

proof fn lemma_digits_single(s: Seq<char>)
    requires
        number::all_digits(s),
    ensures
        text::pieces(s, '.') == seq![s],
{
    assert forall|i: int| 0 <= i < s.len() implies s[i] != '.' by {
        assert(number::is_digit(s[i]));
    }
    text::lemma_pieces_single(s, '.');
}

} // verus!
