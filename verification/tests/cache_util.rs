use bundler::cache::{
    calculate_cache_size_in_bytes, clear_cache, format_duration, BuildCache,
};

fn b(s: &str) -> Vec<u8> {
    s.as_bytes().to_vec()
}

#[test]
fn test_insert_once_claims_each_key_once() {
    let mut c = BuildCache::new();
    assert!(c.insert_once(&b("a.js"), b("first")));
    assert!(!c.insert_once(&b("a.js"), b("second")));
    assert_eq!(c.len(), 1);
    assert_eq!(c.get(&b("a.js")), Some(b("first")));
}

#[test]
fn test_get_missing_key() {
    let c = BuildCache::new();
    assert_eq!(c.get(&b("nope")), None);
}

#[test]
fn test_clear_cache() {
    let mut c = BuildCache::new();
    let _ = c.insert_once(&b("a"), b("x"));
    let _ = c.insert_once(&b("b"), b("y"));
    assert_eq!(c.len(), 2);
    clear_cache(&mut c);
    assert_eq!(c.len(), 0);
    assert_eq!(c.get(&b("a")), None);
}

#[test]
fn test_cache_size_in_bytes() {
    let mut c = BuildCache::new();
    let _ = c.insert_once(&b("ab"), b("xyz"));
    let _ = c.insert_once(&b("c"), b(""));
    // 2 + 3 + 1 + 0 bytes in all.
    assert_eq!(calculate_cache_size_in_bytes(&c), 6);
    clear_cache(&mut c);
    assert_eq!(calculate_cache_size_in_bytes(&c), 0);
}

#[test]
fn test_format_duration() {
    assert_eq!(format_duration(9005), "2h 30m 5s");
    assert_eq!(format_duration(0), "0h 0m 0s");
    assert_eq!(format_duration(59), "0h 0m 59s");
    assert_eq!(format_duration(3600), "1h 0m 0s");
    assert_eq!(format_duration(86399), "23h 59m 59s");
}
