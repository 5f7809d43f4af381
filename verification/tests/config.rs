use dns_ligase::blocklist::MatchOutcome;
use dns_ligase::cli::{config_path, parse_stats_args, StatsCommand};
use dns_ligase::config::{
    create_blocklist, default_cache_path, is_buildable, BlocklistConfig, CacheConfig, Config, LoggingConfig,
    MatchingConfig, ServerConfig, UpstreamConfig,
};
use dns_ligase::fetch::ListBody;
use dns_ligase::reload::{
    describe_changes, listen_address, reload_step, texts_only_in, upstream_address, upstream_moved, Note, ReloadAction,
};

fn strings(v: &[&str]) -> Vec<String> {
    v.iter().map(|s| s.to_string()).collect()
}

fn sample() -> Config {
    Config {
        server: ServerConfig { listen_addr: "127.0.0.1".to_string(), listen_port: 5354 },
        upstream: UpstreamConfig { address: [192, 168, 2, 53], port: 5354, use_tcp: false },
        blocklists: BlocklistConfig {
            urls: strings(&["u1", "u2"]),
            allowlist_urls: strings(&["u3"]),
            refresh_interval_secs: 3600,
            cache_ttl_secs: None,
        },
        matching: MatchingConfig {
            manual_block: strings(&["ads.example.com", "||tree.com^", "/(/"]),
            manual_allow: strings(&["Safe.TREE.com.."]),
            regex_block: strings(&["^(.+[_.-])?telemetry[_.-]", "("]),
            regex_allow: strings(&["^fine"]),
        },
        cache: CacheConfig { path: "/var/lib/dns-ligase/cache.json".to_string() },
        logging: LoggingConfig { queries: false },
    }
}

fn list(url: &str, body: &str) -> ListBody {
    ListBody { url: url.to_string(), body: body.to_string() }
}

#[test]
fn rules_come_from_the_configuration_and_the_lists() {
    let c = sample();
    // There is no list for u2, and the last one for u1 counts.
    let bodies = [list("u1", "gone.com"), list("u1", "one.com\n||safe.tree.com^"), list("u3", "one.com\n")];
    assert!(is_buildable(&c, &bodies));
    let bl = create_blocklist(&c, &bodies);
    assert!(bl.matches("ads.example.com"));
    assert!(bl.matches("x.tree.com"));
    assert!(bl.matches("telemetry-in.battle.net"));
    assert_eq!(bl.check("safe.tree.com"), MatchOutcome::Allowed("allow:safe.tree.com".to_string()));
    assert_eq!(bl.check("fine.tree.com"), MatchOutcome::Allowed("allow_regex:^fine".to_string()));
    assert_eq!(bl.check("one.com"), MatchOutcome::Allowed("allow:one.com".to_string()));
    assert!(!bl.matches("gone.com"));
    assert_eq!(bl.block_regex.len(), 1);
}

#[test]
fn a_lone_slash_cannot_go_into_the_rules() {
    let mut c = sample();
    assert!(!is_buildable(&c, &[list("u3", "a\n/\n")]));
    assert!(is_buildable(&c, &[list("other", "/")]));
    c.matching.manual_block.push("@@/".to_string());
    assert!(!is_buildable(&c, &[]));
}

#[test]
fn lists_are_fresh_until_the_next_refresh_unless_said_otherwise() {
    let mut c = sample();
    assert_eq!(c.blocklists.cache_ttl(), 3600);
    c.blocklists.cache_ttl_secs = Some(5);
    assert_eq!(c.blocklists.cache_ttl(), 5);
    assert_eq!(c.blocklists.all_urls(), strings(&["u1", "u2", "u3"]));
    assert_eq!(default_cache_path("/home/u"), "/home/u/.cache/dns-ligase/cache.json");
}

#[test]
fn addresses_are_written_out() {
    let c = sample();
    assert_eq!(listen_address(&c.server), "127.0.0.1:5354");
    assert_eq!(upstream_address(&c.upstream), "192.168.2.53:5354");
    assert!(!upstream_moved(&c.upstream, &sample().upstream));
}

#[test]
fn every_change_is_told() {
    let old = sample();
    assert!(describe_changes(&old, &sample()).is_empty());
    let mut new = sample();
    new.upstream.address = [10, 0, 0, 1];
    new.upstream.use_tcp = true;
    new.server.listen_port = 53;
    new.blocklists.urls = strings(&["u2", "u4", "u4"]);
    new.blocklists.allowlist_urls = strings(&[]);
    new.blocklists.refresh_interval_secs = 60;
    new.cache.path = "c.json".to_string();
    new.logging.queries = true;
    new.matching.manual_block.push("b.com".to_string());
    new.matching.manual_allow = strings(&["a.com"]);
    new.matching.regex_block.pop();
    new.matching.regex_allow.push("x".to_string());
    assert!(upstream_moved(&old.upstream, &new.upstream));
    let note = |text: &str| Note { warn: false, text: text.to_string() };
    let warning = |text: &str| Note { warn: true, text: text.to_string() };
    assert_eq!(
        describe_changes(&old, &new),
        vec![
            note("Upstream: 192.168.2.53:5354 -> 10.0.0.1:5354 (use_tcp: false -> true)"),
            warning("Listen address changed: 127.0.0.1:5354 -> 127.0.0.1:53 (requires restart to take effect)"),
            note("Blocklist added: u4"),
            note("Blocklist removed: u1"),
            note("Allowlist removed: u3"),
            note("Blocklist refresh interval: 3600s -> 60s"),
            note("Cache path: /var/lib/dns-ligase/cache.json -> c.json"),
            note("Query logging: false -> true"),
            note("Manual block added: b.com"),
            note("Manual allow added: a.com"),
            note("Manual allow removed: Safe.TREE.com.."),
            note("Regex block removed: ("),
            note("Regex allow added: x"),
        ]
    );
}

#[test]
fn differences_hold_each_text_once() {
    assert_eq!(texts_only_in(&strings(&["a", "b", "c", "a"]), &strings(&["b"])), strings(&["a", "c"]));
}

#[test]
fn stats_arguments_are_read() {
    let run = |args: &[&str]| match parse_stats_args(&strings(args)) {
        Ok(StatsCommand::Run(f)) => f,
        other => panic!("{other:?}"),
    };
    let f = run(&["--blocked", "--allowed", "--forwarded", "--summary", "--domain", "ex", "-s", "10.", "--since", "1 hour ago"]);
    assert!(f.blocked && f.allowed && f.forwarded && f.summary);
    assert_eq!(f.domain.as_deref(), Some("ex"));
    assert_eq!(f.src.as_deref(), Some("10."));
    assert_eq!(f.since.as_deref(), Some("1 hour ago"));
    assert_eq!(run(&["-d", "a", "--src", "b", "-d"]).domain, None);
    assert_eq!(run(&["-d", "--blocked"]).domain.as_deref(), Some("--blocked"));
    assert!(matches!(parse_stats_args(&strings(&["-h", "--what"])), Ok(StatsCommand::Help)));
    assert!(matches!(parse_stats_args(&strings(&["--help"])), Ok(StatsCommand::Help)));
    assert_eq!(parse_stats_args(&strings(&["--what", "-h"])).unwrap_err(), "unknown stats flag: --what");
}

#[test]
fn the_configuration_is_found() {
    let env = Some("/etc/c.toml".to_string());
    assert_eq!(config_path(&strings(&["prog", "--config", "x.toml"]), env.clone()), "x.toml");
    assert_eq!(config_path(&strings(&["prog", "--config"]), env.clone()), "/etc/c.toml");
    assert_eq!(config_path(&strings(&["prog"]), None), "config.toml");
}

#[test]
fn a_reload_keeps_everything_or_applies_the_new_configuration() {
    let current = sample().upstream;
    assert_eq!(reload_step(&current, None), ReloadAction::Keep);
    let mut new = sample();
    assert_eq!(
        reload_step(&current, Some(&new)),
        ReloadAction::Apply { replace_pool: false, log_queries: false }
    );
    new.upstream.use_tcp = true;
    new.logging.queries = true;
    assert_eq!(
        reload_step(&current, Some(&new)),
        ReloadAction::Apply { replace_pool: false, log_queries: true }
    );
    new.upstream.port = 53;
    assert_eq!(
        reload_step(&current, Some(&new)),
        ReloadAction::Apply { replace_pool: true, log_queries: true }
    );
    let mut new = sample();
    new.upstream.address = [192, 168, 2, 54];
    assert_eq!(
        reload_step(&current, Some(&new)),
        ReloadAction::Apply { replace_pool: true, log_queries: false }
    );
}
