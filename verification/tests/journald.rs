use dns_ligase::journald::{log_query, sanitize_field};

#[test]
fn test_log_query_does_not_panic_without_journald() {
    log_query("192.168.1.5", "ads.example.com", "A", "blocked", "||ads.example.com^");
    log_query("10.0.0.1", "example.com", "AAAA", "allowed", "");
    // A name with line breaks is taken, too.
    log_query("10.0.0.2", "evil\nQUERY_ACTION=allowed", "A", "blocked", "x\ny");
}

#[test]
fn test_sanitize_field() {
    assert_eq!(sanitize_field("ads.example.com"), "ads.example.com");
    assert_eq!(sanitize_field("a\nb"), "a_b");
    assert_eq!(sanitize_field("a\rb"), "a_b");
    assert_eq!(sanitize_field("a\nQUERY_ACTION=x\nb"), "a_QUERY_ACTION=x_b");
    // '=' is harmless to the protocol and must survive (rules contain it).
    assert_eq!(sanitize_field("a=b"), "a=b");
}

#[test]
fn an_entry_holds_its_fields_in_order() {
    assert_eq!(
        log_query("192.168.1.5", "ads.example.com", "A", "blocked", "block:ads.example.com"),
        "PRIORITY=6\nSYSLOG_IDENTIFIER=dns-ligase\n\
         MESSAGE=query blocked ads.example.com (A) from 192.168.1.5 [block:ads.example.com]\n\
         QUERY_SOURCE=192.168.1.5\nQUERY_DOMAIN=ads.example.com\nQUERY_QTYPE=A\n\
         QUERY_ACTION=blocked\nQUERY_RULE=block:ads.example.com\n"
    );
}

#[test]
fn an_entry_without_a_rule_leaves_it_out_of_the_message() {
    let entry = log_query("10.0.0.1", "example.com", "AAAA", "allowed", "");
    assert!(entry.starts_with("PRIORITY=7\n"));
    assert!(entry.contains("MESSAGE=query allowed example.com (AAAA) from 10.0.0.1\n"));
    assert!(entry.ends_with("QUERY_RULE=\n"));
    assert!(log_query("s", "d", "A", "forwarded", "").starts_with("PRIORITY=6\n"));
}

#[test]
fn a_name_with_line_breaks_adds_no_field() {
    let entry = log_query("10.0.0.2", "evil\nQUERY_ACTION=allowed", "A", "blocked", "x\ny");
    let lines: Vec<&str> = entry.lines().collect();
    assert_eq!(lines.len(), 8);
    assert_eq!(lines[4], "QUERY_DOMAIN=evil_QUERY_ACTION=allowed");
    assert_eq!(lines[6], "QUERY_ACTION=blocked");
    assert_eq!(lines[7], "QUERY_RULE=x_y");
}
