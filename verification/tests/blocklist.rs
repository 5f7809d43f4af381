use dns_ligase::blocklist::{
    detect_format, has_lone_slash, is_lone_slash, merge_blocklist, parse_lines_into, parse_lines_into_allow, read_rule,
    Blocklist, LineRule, ListFormat, MatchOutcome, RuleBody, RuleError,
};

#[test]
fn test_hosts_format() {
    let mut bl = Blocklist::new();
    bl.parse_line("example.com", ListFormat::Hosts).unwrap();
    bl.parse_line("  sub.example.org  ", ListFormat::Hosts).unwrap();
    bl.parse_line("! comment", ListFormat::Hosts).unwrap();
    bl.parse_line("# comment", ListFormat::Hosts).unwrap();
    assert!(bl.matches("example.com"));
    assert!(bl.matches("sub.example.org"));
    assert!(!bl.matches("google.com"));
}

#[test]
fn test_adblock_format() {
    let mut bl = Blocklist::new();
    bl.parse_line("||ads.com^", ListFormat::AdBlock).unwrap();
    bl.parse_line("/track\\.me/", ListFormat::AdBlock).unwrap();
    assert!(bl.matches("ads.com"));
    assert!(bl.matches("sub.ads.com"));
    assert!(bl.matches("track.me"));
    assert!(!bl.matches("google.com"));
}

#[test]
fn test_allow_precedence() {
    let mut bl = Blocklist::new();
    bl.parse_line("||ads.com^", ListFormat::AdBlock).unwrap();
    bl.parse_line("@@||sub.ads.com^", ListFormat::AdBlock).unwrap();
    assert!(bl.matches("ads.com"));
    assert!(!bl.matches("sub.ads.com"));
    assert!(bl.matches("other.ads.com"));
}

#[test]
fn test_regex_allow() {
    let mut bl = Blocklist::new();
    bl.parse_line("||ads.com^", ListFormat::AdBlock).unwrap();
    bl.parse_line("/^safe\\.com$/", ListFormat::AdBlock).unwrap();
    bl.parse_line("@@/^safe\\.com$/", ListFormat::AdBlock).unwrap();
    assert!(bl.matches("ads.com"));
    assert!(!bl.matches("safe.com"));
}

#[test]
fn test_ip_prefix_format() {
    let mut bl = Blocklist::new();
    bl.parse_line("0.0.0.0 ads.example.com", ListFormat::Hosts).unwrap();
    assert!(bl.matches("ads.example.com"));
}

#[test]
fn test_direct_match() {
    let mut bl = Blocklist::new();
    bl.parse_line("direct.com", ListFormat::AdBlock).unwrap();
    assert!(bl.matches("direct.com"));
    assert!(!bl.matches("sub.direct.com"));
}

#[test]
fn test_auto_detect() {
    let mut bl = Blocklist::new();
    bl.parse_auto("||ads.com^").unwrap();
    assert!(bl.matches("sub.ads.com"));

    let mut bl2 = Blocklist::new();
    bl2.parse_auto("example.com").unwrap();
    assert!(bl2.matches("example.com"));
}

#[test]
fn test_all_formats() {
    let formats = [
        ListFormat::Hosts,
        ListFormat::AdBlock,
        ListFormat::PiHole,
        ListFormat::AdGuard,
    ];
    for format in formats {
        let mut bl = Blocklist::new();
        bl.parse_line("example.com", format).unwrap();
        assert!(bl.matches("example.com"), "Failed for {:?}", format);
    }
}

#[test]
fn test_adguard_format() {
    let mut bl = Blocklist::new();
    bl.parse_line("||ads.example.com^", ListFormat::AdGuard).unwrap();
    bl.parse_line("/track\\.me/", ListFormat::AdGuard).unwrap();
    assert!(bl.matches("ads.example.com"));
    assert!(bl.matches("sub.ads.example.com"));
    assert!(bl.matches("track.me"));
    assert!(!bl.matches("google.com"));
}

#[test]
fn test_suffix_match_blocks_subdomains() {
    let mut bl = Blocklist::new();
    bl.parse_line("||ads.com^", ListFormat::AdBlock).unwrap();
    assert!(bl.matches("ads.com"));
    assert!(bl.matches("sub.ads.com"));
    assert!(bl.matches("a.b.ads.com"));
    assert!(!bl.matches("google.com"));
}

#[test]
fn test_suffix_match_no_anchor() {
    let mut bl = Blocklist::new();
    bl.parse_line("||ads.com^", ListFormat::AdBlock).unwrap();
    // ads.com.evil.net should NOT be blocked (no implicit $ anchor)
    assert!(!bl.matches("ads.com.evil.net"));
    assert!(!bl.matches("notads.com"));
}

#[test]
fn test_allow_suffix_beats_block_suffix() {
    let mut bl = Blocklist::new();
    bl.parse_line("||ads.com^", ListFormat::AdBlock).unwrap();
    bl.parse_line("@@||safe.ads.com^", ListFormat::AdBlock).unwrap();
    assert!(bl.matches("ads.com"));
    assert!(bl.matches("evil.ads.com"));
    assert!(!bl.matches("safe.ads.com"));
}

#[test]
fn test_parse_lines_into_allow_hosts_format() {
    let mut bl = Blocklist::new();
    // Block everything under ads.com
    bl.parse_line("||ads.com^", ListFormat::AdBlock).unwrap();

    // Allowlist body in hosts format: bare domains become allow rules
    let body = "# allowlist\nexample.com\n0.0.0.0 safe.ads.com\n";
    parse_lines_into_allow(&mut bl, body);

    assert!(!bl.matches("example.com"), "allowlist entry should override");
    assert!(!bl.matches("safe.ads.com"), "allowlist should override block suffix");
    assert!(bl.matches("evil.ads.com"), "block suffix still applies elsewhere");
}

#[test]
fn test_parse_lines_into_allow_adblock_format() {
    let mut bl = Blocklist::new();
    bl.parse_line("||ads.com^", ListFormat::AdBlock).unwrap();

    // Allowlist body in AdBlock format: ||domain^ and /regex/ become allow rules
    let body = "||safe.ads.com^\n/^allow\\.me$/\n@@||redundant.ads.com^\n";
    parse_lines_into_allow(&mut bl, body);

    assert!(!bl.matches("safe.ads.com"), "|| suffix in allowlist should allow");
    assert!(!bl.matches("sub.safe.ads.com"), "subdomain of allow suffix");
    assert!(!bl.matches("allow.me"), "regex in allowlist should allow");
    assert!(!bl.matches("redundant.ads.com"), "@@ in allowlist is still allow");
    assert!(bl.matches("evil.ads.com"), "block still applies");
}

fn rule(line: &str, format: ListFormat, as_allow: bool) -> (bool, RuleBody) {
    let LineRule { allow, body } = read_rule(line, format, as_allow);
    (allow, body)
}

#[test]
fn lines_are_read_into_rules() {
    let exact = |s: &str| RuleBody::Exact(s.to_string());
    let suffix = |s: &str| RuleBody::Suffix(s.to_string());
    let pattern = |s: &str| RuleBody::Pattern(s.to_string());
    let ad = ListFormat::AdBlock;
    assert_eq!(rule("", ad, false), (false, RuleBody::Nothing));
    assert_eq!(rule("  ! note", ad, false), (false, RuleBody::Nothing));
    assert_eq!(rule("\t# note", ListFormat::Hosts, false), (false, RuleBody::Nothing));
    assert_eq!(rule("127.0.0.1 Ads.Com. # note", ListFormat::Hosts, false), (false, exact("Ads.Com")));
    assert_eq!(rule("127.0.0.1\u{a0}x.org", ListFormat::PiHole, true), (true, exact("x.org")));
    assert_eq!(rule("...", ListFormat::Hosts, false), (false, RuleBody::Nothing));
    assert_eq!(rule("||ads.com^", ad, false), (false, suffix("ads.com")));
    assert_eq!(rule("||||ads.com.^^", ad, false), (false, suffix("ads.com")));
    assert_eq!(rule("||^", ad, false), (false, suffix("")));
    assert_eq!(rule("@@||ads.com^", ad, false), (true, suffix("ads.com")));
    assert_eq!(rule("@@@@x.com", ad, false), (true, exact("x.com")));
    assert_eq!(rule("@@x.com", ListFormat::Hosts, false), (false, exact("@@x.com")));
    assert_eq!(rule("/a+/", ad, false), (false, pattern("a+")));
    assert_eq!(rule("//", ad, false), (false, pattern("")));
    assert_eq!(rule("/half", ad, true), (true, exact("/half")));
}

#[test]
fn formats_are_detected() {
    assert_eq!(detect_format(" ||a^"), ListFormat::AdBlock);
    assert_eq!(detect_format("@@a"), ListFormat::AdBlock);
    assert_eq!(detect_format("/a/"), ListFormat::AdBlock);
    assert_eq!(detect_format("/a"), ListFormat::Hosts);
    assert_eq!(detect_format("a.com"), ListFormat::Hosts);
    assert_eq!(detect_format(""), ListFormat::Hosts);
}

#[test]
fn a_lone_slash_is_found() {
    assert!(is_lone_slash(" / "));
    assert!(is_lone_slash("@@/"));
    assert!(!is_lone_slash("//"));
    assert!(!is_lone_slash(""));
    assert!(has_lone_slash("a.com\n/\n"));
    assert!(!has_lone_slash("a.com\n//\n"));
}

#[test]
fn clean_domain_takes_the_last_word() {
    assert_eq!(Blocklist::clean_domain_static("0.0.0.0  a.b. # c"), Some("a.b".to_string()));
    assert_eq!(Blocklist::clean_domain_static("one"), Some("one".to_string()));
    assert_eq!(Blocklist::clean_domain_static("# c"), None);
    assert_eq!(Blocklist::clean_domain_static(" . "), None);
}

#[test]
fn a_pattern_that_does_not_compile_is_refused() {
    let mut bl = Blocklist::new();
    assert_eq!(
        bl.parse_line("/(/", ListFormat::AdBlock),
        Err(RuleError::InvalidPattern("(".to_string()))
    );
    assert_eq!(bl.parse_auto("@@/[/"), Err(RuleError::InvalidPattern("[".to_string())));
    assert!(bl.block_regex.is_empty());
    assert!(bl.allow_regex.is_empty());
    // A hosts line holds no pattern.
    assert_eq!(bl.parse_line("/(/", ListFormat::Hosts), Ok(()));
}

#[test]
fn outcomes_name_the_rule() {
    let mut bl = Blocklist::new();
    bl.parse_auto("exact.com").unwrap();
    bl.parse_auto("||tree.com^").unwrap();
    bl.parse_auto("/^track/").unwrap();
    bl.parse_auto("/rack/").unwrap();
    bl.parse_auto_mode("good.com", true).unwrap();
    bl.parse_auto("@@||ok.tree.com^").unwrap();
    bl.parse_auto("@@/^fine/").unwrap();
    let blocked = |s: &str| MatchOutcome::Blocked(s.to_string());
    let allowed = |s: &str| MatchOutcome::Allowed(s.to_string());
    assert_eq!(bl.check("EXACT.com"), blocked("block:exact.com"));
    assert_eq!(bl.check("sub.exact.com"), MatchOutcome::Forwarded);
    assert_eq!(bl.check("a.Tree.com"), blocked("block_suffix:a.tree.com"));
    assert_eq!(bl.check("tracker.org"), blocked("block_regex:^track"));
    assert_eq!(bl.check("crack.org"), blocked("block_regex:rack"));
    assert_eq!(bl.check("good.com"), allowed("allow:good.com"));
    assert_eq!(bl.check("x.ok.tree.com"), allowed("allow_suffix:x.ok.tree.com"));
    assert_eq!(bl.check("fine-track.org"), allowed("allow_regex:^fine"));
    assert_eq!(bl.check("other.org"), MatchOutcome::Forwarded);
    assert_eq!(bl.check_lower("EXACT.com"), MatchOutcome::Forwarded);
}

#[test]
fn letter_case_does_not_count_outside_ascii() {
    let mut bl = Blocklist::new();
    bl.parse_auto("\u{c9}t\u{e9}.fr").unwrap();
    assert!(bl.matches("\u{e9}t\u{c9}.FR"));
}

#[test]
fn suffix_match_walks_labels() {
    let mut bl = Blocklist::new();
    bl.add_suffix(false, "b.c".to_string());
    assert!(Blocklist::suffix_match(&bl.block_suffixes, "b.c"));
    assert!(Blocklist::suffix_match(&bl.block_suffixes, "a.b.c"));
    assert!(Blocklist::suffix_match(&bl.block_suffixes, ".b.c"));
    assert!(!Blocklist::suffix_match(&bl.block_suffixes, "ab.c"));
    assert!(!Blocklist::suffix_match(&bl.block_suffixes, "c"));
}

#[test]
fn a_list_is_read_past_bad_lines() {
    let mut bl = Blocklist::new();
    parse_lines_into(&mut bl, "one.com\r\n/(/\n\n||two.com^\n0.0.0.0 three.com");
    assert!(bl.matches("one.com"));
    assert!(bl.matches("x.two.com"));
    assert!(bl.matches("three.com"));
    assert_eq!(bl.block_domains.len(), 2);
}

#[test]
fn a_text_is_read_up_to_its_first_bad_line() {
    let mut bl = Blocklist::new();
    assert_eq!(bl.parse_content("one.com\ntwo.com\n", Some(ListFormat::Hosts)), Some(Ok(())));
    assert!(bl.matches("two.com"));

    let mut bl = Blocklist::new();
    assert_eq!(
        bl.parse_content("one.com\n/(/\ntwo.com", None),
        Some(Err(RuleError::InvalidPattern("(".to_string())))
    );
    assert!(bl.matches("one.com"));
    assert!(!bl.matches("two.com"));

    let mut bl = Blocklist::new();
    assert_eq!(bl.parse_content("one.com\n/\ntwo.com", None), None);
    assert!(bl.matches("one.com"));
    assert!(!bl.matches("two.com"));
}

#[test]
fn merging_unites_the_rules() {
    let mut a = Blocklist::new();
    a.parse_auto("a.com").unwrap();
    a.parse_auto("/^x/").unwrap();
    let mut b = Blocklist::new();
    b.parse_auto("||b.com^").unwrap();
    b.parse_auto("/^y/").unwrap();
    b.parse_auto("@@c.com").unwrap();
    merge_blocklist(&mut a, b);
    assert!(a.matches("a.com"));
    assert!(a.matches("z.b.com"));
    assert!(a.matches("x.org"));
    assert!(a.matches("y.org"));
    assert_eq!(a.check("c.com"), MatchOutcome::Allowed("allow:c.com".to_string()));
    assert_eq!(a.block_regex.len(), 2);
    assert_eq!(a.block_regex[1].as_str(), "^y");
}

#[test]
fn an_allowlist_leaves_block_rules_alone() {
    let mut bl = Blocklist::new();
    bl.parse_auto("a.com").unwrap();
    parse_lines_into_allow(&mut bl, "a.com\n||b.com^\n/c/\n");
    assert!(bl.block_domains.contains("a.com"));
    assert_eq!(bl.block_domains.len(), 1);
    assert_eq!(bl.block_suffixes.len(), 0);
    assert!(bl.block_regex.is_empty());
    assert!(!bl.matches("a.com"));
}

#[test]
fn clearing_removes_every_rule() {
    let mut bl = Blocklist::new();
    parse_lines_into(&mut bl, "a.com\n||b.com^\n/c/\n@@d.com\n@@||e.com^\n@@/f/\n");
    bl.clear();
    for name in ["a.com", "b.com", "c", "d.com", "e.com", "f"] {
        assert_eq!(bl.check(name), MatchOutcome::Forwarded);
    }
}

#[test]
fn added_names_are_in_lowercase_and_without_a_dot_at_the_end() {
    let mut bl = Blocklist::new();
    parse_lines_into(&mut bl, "Ads.COM..\n||Tree.Org.^\n||^\n...\n\u{130}X.\n@@Good.Net.\n");
    assert_eq!(bl.block_domains.len(), 2);
    assert!(bl.block_domains.contains("ads.com"));
    assert!(bl.block_domains.contains("i\u{307}x"));
    assert_eq!(bl.block_suffixes.len(), 1);
    assert!(bl.block_suffixes.contains("tree.org"));
    assert_eq!(bl.allow_domains.len(), 1);
    assert!(bl.allow_domains.contains("good.net"));
}
