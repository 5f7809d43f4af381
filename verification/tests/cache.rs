use dns_ligase::cache::{bodies_dir, bodies_dir_in, body_path, url_to_filename, CacheMap, CachedList, CachedLists};

#[test]
fn test_url_to_filename_stable_and_safe() {
    // Stable for the same URL
    let f1 = url_to_filename("https://v.firebog.net/hosts/Prigent-Crypto.txt");
    let f2 = url_to_filename("https://v.firebog.net/hosts/Prigent-Crypto.txt");
    assert_eq!(f1, f2);
    // Readable prefix + FNV-1a hash suffix
    assert!(
        f1.starts_with("v.firebog.net_hosts_Prigent-Crypto.txt_"),
        "filename should start with readable prefix: {f1}"
    );
    assert!(f1.ends_with(".txt"), "filename should end with .txt: {f1}");

    // Different URLs with same prefix produce different filenames
    let a = url_to_filename("https://example.com/list-A.txt");
    let b = url_to_filename("https://example.com/list-B.txt");
    assert_ne!(a, b, "different URLs must not collide");

    // Path traversal blocked — no / or \ in the filename
    let evil = url_to_filename("https://evil.com/../../../etc/passwd");
    assert!(!evil.contains('/'));
    assert!(!evil.contains('\\'));
}

#[test]
fn test_url_to_filename_collision_resistance() {
    // Two URLs that share a long common prefix (identical past 100 chars
    // when sanitized) must produce different filenames thanks to the hash.
    let prefix = format!("https://example.com/{}", "x".repeat(120));
    let url_a = format!("{prefix}/a");
    let url_b = format!("{prefix}/b");
    let fa = url_to_filename(&url_a);
    let fb = url_to_filename(&url_b);
    assert_ne!(fa, fb, "URLs differing only past 100 chars must not collide");
    // Both should share the readable prefix
    assert_eq!(&fa[..100], &fb[..100]);
}

#[test]
fn test_url_to_filename_truncation() {
    let long_url = format!("https://example.com/{}", "a".repeat(200));
    let fname = url_to_filename(&long_url);
    // 100 chars readable prefix + 1 underscore + 16 hex hash + ".txt" = 121
    assert!(fname.len() <= 121, "filename too long: {} ({})", fname, fname.len());
    assert!(fname.ends_with(".txt"));
}

#[test]
fn file_names_are_exact() {
    assert_eq!(url_to_filename("https://example.com/list.txt"), "example.com_list.txt_2141ad301fe5de0a.txt");
    assert_eq!(url_to_filename(""), "_cbf29ce484222325.txt");
    assert_eq!(url_to_filename("http://a b/\u{e9}"), "a_b___d77009cd8b31e561.txt");
}

#[test]
fn bodies_stand_beside_the_cache() {
    assert_eq!(bodies_dir("/var/lib/dns-ligase/cache.json"), "/var/lib/dns-ligase/cache.d");
    assert_eq!(bodies_dir("/home/u/.cache/dns-ligase/cache.json"), "/home/u/.cache/dns-ligase/cache.d");
    assert_eq!(bodies_dir("cache.json"), "cache.d");
    assert_eq!(bodies_dir("/cache.json"), "/cache.d");
    assert_eq!(bodies_dir(""), "./cache.d");
    assert_eq!(bodies_dir("/"), "./cache.d");
    assert_eq!(bodies_dir("a//b"), "a/cache.d");
    assert_eq!(bodies_dir_in(None), "./cache.d");
    assert_eq!(body_path("/a/cache.json", "x.txt"), "/a/cache.d/x.txt");
    assert_eq!(body_path("/a/cache.json", "/x.txt"), "/x.txt");
}

fn entry(fetched_at: u64, filename: &str) -> CachedList {
    CachedList { fetched_at, etag: None, filename: filename.to_string() }
}

#[test]
fn what_was_put_in_is_found() {
    let mut map = CacheMap::new();
    map.insert("u".to_string(), entry(1, "a"));
    map.insert("v".to_string(), entry(2, "b"));
    map.insert("u".to_string(), entry(3, "c"));
    assert_eq!(map.len(), 2);
    assert_eq!(map.get("u"), Some(&entry(3, "c")));
    assert_eq!(map.get("v"), Some(&entry(2, "b")));
    assert_eq!(map.get("w"), None);
    assert!(map.contains_key("v"));
    assert_eq!(map.items()[0].url, "u");
}

#[test]
fn lists_are_fresh_for_the_interval() {
    let mut cache = CachedLists::new();
    cache.record("u".to_string(), entry(100, "f"));
    assert_eq!(cache.get_if_fresh("u", 10, 109), Some("f".to_string()));
    assert_eq!(cache.get_if_fresh("u", 10, 110), None);
    // A list from the future counts as fetched now.
    assert_eq!(cache.get_if_fresh("u", 1, 5), Some("f".to_string()));
    assert_eq!(cache.get_if_fresh("u", 0, 5), None);
    assert_eq!(cache.get_if_fresh("v", 10, 100), None);
}

#[test]
fn pruning_drops_what_is_not_kept() {
    let mut cache = CachedLists::default();
    assert!(!cache.dirty);
    cache.map.insert("https://example.com/removed.txt".to_string(), entry(1, "r"));
    cache.map.insert("https://example.com/kept.txt".to_string(), entry(1, "k"));
    let keep = ["https://example.com/kept.txt".to_string()];
    assert_eq!(cache.prune(&keep), vec!["r".to_string()]);
    assert_eq!(cache.map.len(), 1);
    assert!(cache.map.contains_key("https://example.com/kept.txt"));
    assert!(cache.dirty);
    assert!(cache.start_save());
    assert!(cache.prune(&keep).is_empty());
    assert!(!cache.start_save());
}
