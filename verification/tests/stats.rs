use dns_ligase::calendar::days_to_ymd;
use dns_ligase::number::{parse_u64, to_decimal, to_hex, to_padded_decimal};
use dns_ligase::report::{count_keys, print_entries, print_summary, rank, Count};
use dns_ligase::stats::{filter_entries, format_timestamp, journal_lines, parse_entries, JournalEntry, QueryEntry, StatsFilter};

fn make_entry(action: &str, domain: &str, source: &str) -> QueryEntry {
    QueryEntry {
        timestamp: "2025-01-01 12:00:00".to_string(),
        source: source.to_string(),
        domain: domain.to_string(),
        qtype: "A".to_string(),
        action: action.to_string(),
        rule: String::new(),
    }
}

fn read_journal(json: &str) -> Vec<JournalEntry> {
    let mut out = Vec::new();
    for line in journal_lines(json) {
        let Ok(value) = serde_json::from_str::<serde_json::Value>(&line) else { continue };
        let field = |key: &str| value.get(key).and_then(|v| v.as_str()).map(|s| s.to_string());
        out.push(JournalEntry {
            timestamp: field("__REALTIME_TIMESTAMP"),
            source: field("QUERY_SOURCE"),
            domain: field("QUERY_DOMAIN"),
            qtype: field("QUERY_QTYPE"),
            action: field("QUERY_ACTION"),
            rule: field("QUERY_RULE"),
        });
    }
    out
}

#[test]
fn test_parse_entries_skips_non_query_logs() {
    let json = r#"{"__REALTIME_TIMESTAMP":"123","MESSAGE":"Starting up"}
{"__REALTIME_TIMESTAMP":"456","QUERY_SOURCE":"10.0.0.1","QUERY_DOMAIN":"ads.com","QUERY_QTYPE":"A","QUERY_ACTION":"blocked","QUERY_RULE":"block:ads.com"}"#;
    let entries = parse_entries(&read_journal(json));
    assert_eq!(entries.len(), 1);
    assert_eq!(entries[0].domain, "ads.com");
    assert_eq!(entries[0].action, "blocked");
}

#[test]
fn test_filter_by_action() {
    let entries = vec![
        make_entry("blocked", "ads.com", "10.0.0.1"),
        make_entry("forwarded", "example.com", "10.0.0.2"),
        make_entry("allowed", "safe.com", "10.0.0.1"),
    ];
    let f = StatsFilter { blocked: true, ..Default::default() };
    assert_eq!(filter_entries(entries, &f).len(), 1);

    let entries = vec![
        make_entry("blocked", "ads.com", "10.0.0.1"),
        make_entry("forwarded", "example.com", "10.0.0.2"),
        make_entry("allowed", "safe.com", "10.0.0.1"),
    ];
    let f = StatsFilter { allowed: true, ..Default::default() };
    assert_eq!(filter_entries(entries, &f).len(), 1);
}

#[test]
fn test_filter_by_domain() {
    let entries = vec![
        make_entry("blocked", "ads.example.com", "10.0.0.1"),
        make_entry("blocked", "tracker.net", "10.0.0.2"),
    ];
    let f = StatsFilter { blocked: true, domain: Some("example".to_string()), ..Default::default() };
    let filtered = filter_entries(entries, &f);
    assert_eq!(filtered.len(), 1);
    assert_eq!(filtered[0].domain, "ads.example.com");
}

#[test]
fn test_filter_by_source() {
    let entries = vec![
        make_entry("blocked", "ads.com", "10.0.0.1"),
        make_entry("blocked", "tracker.net", "10.0.0.2"),
    ];
    let f = StatsFilter { blocked: true, src: Some("10.0.0.2".to_string()), ..Default::default() };
    let filtered = filter_entries(entries, &f);
    assert_eq!(filtered.len(), 1);
    assert_eq!(filtered[0].source, "10.0.0.2");
}

#[test]
fn test_filter_no_action_shows_all() {
    let entries = vec![
        make_entry("blocked", "ads.com", "10.0.0.1"),
        make_entry("forwarded", "example.com", "10.0.0.2"),
        make_entry("allowed", "safe.com", "10.0.0.1"),
    ];
    let f = StatsFilter::default();
    assert_eq!(filter_entries(entries, &f).len(), 3);
}

#[test]
fn test_format_timestamp() {
    // 2025-01-01 00:00:00 UTC = 1735689600 epoch seconds = 1735689600000000 us
    assert_eq!(format_timestamp(Some("1735689600000000")), "2025-01-01 00:00:00");
    assert_eq!(format_timestamp(None), "");
    assert_eq!(format_timestamp(Some("0")), "");
}

#[test]
fn test_days_to_ymd() {
    // 1970-01-01 is day 0
    assert_eq!(days_to_ymd(0), (1970, 1, 1));
    // 2025-01-01
    let jan1_2025 = 1735689600u64 / 86400;
    assert_eq!(days_to_ymd(jan1_2025), (2025, 1, 1));
}

#[test]
fn journal_lines_leave_out_blank_ones() {
    assert_eq!(journal_lines("a\n \t\n\r\nb\r\nc"), vec!["a", "b", "c"]);
    assert!(journal_lines("").is_empty());
}

#[test]
fn entries_fill_in_what_is_missing() {
    let bare = JournalEntry { timestamp: None, source: None, domain: None, qtype: None, action: None, rule: None };
    let only_action = JournalEntry { action: Some("blocked".to_string()), ..bare };
    let got = parse_entries(&[only_action]);
    assert_eq!(got.len(), 1);
    assert_eq!(got[0].action, "blocked");
    assert_eq!(got[0].domain, "");
    assert_eq!(got[0].timestamp, "");
}

#[test]
fn timestamps_are_exact() {
    assert_eq!(format_timestamp(Some("951868799999999")), "2000-02-29 23:59:59");
    assert_eq!(format_timestamp(Some("951868800000000")), "2000-03-01 00:00:00");
    assert_eq!(format_timestamp(Some("1")), "1970-01-01 00:00:00");
    assert_eq!(format_timestamp(Some("+1735689600000000")), "2025-01-01 00:00:00");
    assert_eq!(format_timestamp(Some("soon")), "");
    assert_eq!(format_timestamp(Some("99999999999999999999")), "");
    assert_eq!(format_timestamp(Some("18446744073709551615")), "586524-01-19 08:01:49");
}

#[test]
fn days_are_exact() {
    assert_eq!(days_to_ymd(58), (1970, 2, 28));
    assert_eq!(days_to_ymd(59), (1970, 3, 1));
    assert_eq!(days_to_ymd(11016), (2000, 2, 29));
    assert_eq!(days_to_ymd(47540), (2100, 2, 28));
    assert_eq!(days_to_ymd(47541), (2100, 3, 1));
    // Taken as signed, this is the day before the first of 1970.
    assert_eq!(days_to_ymd(u64::MAX), (1969, 12, 31));
    // The day before year 0 falls in a year that is wrapped.
    assert_eq!(days_to_ymd(0u64.wrapping_sub(719529)), (u64::MAX, 12, 31));
}

#[test]
fn numbers_are_read_and_written() {
    assert_eq!(parse_u64("0"), Some(0));
    assert_eq!(parse_u64("+007"), Some(7));
    assert_eq!(parse_u64("18446744073709551615"), Some(u64::MAX));
    assert_eq!(parse_u64("18446744073709551616"), None);
    assert_eq!(parse_u64(""), None);
    assert_eq!(parse_u64("+"), None);
    assert_eq!(parse_u64("-1"), None);
    assert_eq!(parse_u64(&to_decimal(u64::MAX)), Some(u64::MAX));
    assert_eq!(to_padded_decimal(7, 2), "07");
    assert_eq!(to_padded_decimal(123, 2), "123");
    assert_eq!(to_hex(0xab, 4), "00ab");
}

#[test]
fn two_actions_at_once_show_nothing() {
    let entries = vec![make_entry("blocked", "a", "s"), make_entry("allowed", "b", "s")];
    let f = StatsFilter { blocked: true, allowed: true, ..Default::default() };
    assert!(filter_entries(entries, &f).is_empty());
}

#[test]
fn filtering_keeps_order_and_repeats() {
    let entries = vec![
        make_entry("forwarded", "b.com", "s"),
        make_entry("blocked", "x.com", "s"),
        make_entry("forwarded", "a.com", "s"),
        make_entry("forwarded", "b.com", "s"),
    ];
    let f = StatsFilter { forwarded: true, ..Default::default() };
    let once = filter_entries(entries, &f);
    let names: Vec<&str> = once.iter().map(|e| e.domain.as_str()).collect();
    assert_eq!(names, vec!["b.com", "a.com", "b.com"]);
    let twice = filter_entries(once.clone(), &f);
    assert_eq!(once, twice);
}

#[test]
fn tables_are_laid_out() {
    assert_eq!(print_entries(&[]), vec!["No matching entries."]);
    let mut e = make_entry("blocked", "ads.com", "10.0.0.1");
    e.rule = "block:ads.com".to_string();
    let lines = print_entries(&[e]);
    assert_eq!(lines.len(), 3);
    assert_eq!(
        lines[0],
        "TIMESTAMP             SOURCE          TYPE   ACTION     DOMAIN                              RULE"
    );
    assert_eq!(lines[1], "-".repeat(100));
    assert_eq!(
        lines[2],
        format!(
            "{:<20} {:<15} {:<6} {:<10} {:<32} {}",
            "2025-01-01 12:00:00", "10.0.0.1", "A", "blocked", "ads.com", "block:ads.com"
        )
    );
}

#[test]
fn summaries_are_laid_out() {
    assert_eq!(print_summary(&[]), vec!["No matching entries."]);
    let entries = vec![
        make_entry("blocked", "a.com", "10.0.0.1"),
        make_entry("forwarded", "c.com", "10.0.0.2"),
        make_entry("blocked", "b.com", "10.0.0.2"),
        make_entry("blocked", "b.com", "10.0.0.2"),
    ];
    assert_eq!(
        print_summary(&entries),
        vec![
            "Total queries: 4".to_string(),
            String::new(),
            "By action:".to_string(),
            format!("  {:<12} {}", "blocked", 3),
            format!("  {:<12} {}", "forwarded", 1),
            String::new(),
            "Top 10 blocked domains:".to_string(),
            format!("  {:<2}. {:<40} {}", 1, "b.com", 2),
            format!("  {:<2}. {:<40} {}", 2, "a.com", 1),
            String::new(),
            "Top 10 sources:".to_string(),
            format!("  {:<2}. {:<40} {}", 1, "10.0.0.2", 3),
            format!("  {:<2}. {:<40} {}", 2, "10.0.0.1", 1),
        ]
    );
}

#[test]
fn rankings_end_at_ten() {
    let entries: Vec<QueryEntry> = (0..12).map(|i| make_entry("blocked", &format!("d{i}"), "s")).collect();
    let lines = print_summary(&entries);
    // Three lines, one action, two lines, ten domains, two lines, one source.
    assert_eq!(lines.len(), 19);
    assert_eq!(lines[15], format!("  {:<2}. {:<40} {}", 10, "d9", 1));
}

#[test]
fn keys_are_counted_and_ranked() {
    let counted = count_keys(&["x", "y", "z", "y"]);
    let c = |key: &str, count: usize| Count { key: key.to_string(), count };
    assert_eq!(counted, vec![c("x", 1), c("y", 2), c("z", 1)]);
    assert_eq!(rank(counted), vec![c("y", 2), c("x", 1), c("z", 1)]);
}
