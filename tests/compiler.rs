use ai::compiler::{
    detect_shortlinks, is_cache_expired, is_cache_expired_at, single_shortlink, CompilerCache,
    CompilerError, COMPILER_CACHE_DURATION_SECS,
};

#[test]
fn test_detect_shortlinks_valid() {
    let query = "What's wrong with https://godbolt.org/z/9E9M3GK5c?";
    let result = detect_shortlinks(query).unwrap();
    assert_eq!(result, vec!["9E9M3GK5c"]);
}

#[test]
fn test_detect_shortlinks_invalid_too_short() {
    let query = "https://godbolt.org/z/12345";
    let result = detect_shortlinks(query).unwrap();
    assert!(result.is_empty());
}

#[test]
fn test_detect_shortlinks_invalid_too_long() {
    let query = "https://godbolt.org/z/1234567890123";
    let result = detect_shortlinks(query).unwrap();
    assert!(result.is_empty());
}

#[test]
fn test_detect_shortlinks_invalid_characters() {
    let query = "https://godbolt.org/z/12345@abc";
    let result = detect_shortlinks(query).unwrap();
    assert!(result.is_empty());
}

#[test]
fn test_detect_shortlinks_multiple() {
    let query = "Compare https://godbolt.org/z/9E9M3GK5c with https://godbolt.org/z/abcd1234";
    let result = detect_shortlinks(query).unwrap();
    assert_eq!(result, vec!["9E9M3GK5c", "abcd1234"]);
}

#[test]
fn test_detect_shortlinks_none() {
    let query = "Just a normal query without shortlinks";
    let result = detect_shortlinks(query).unwrap();
    assert!(result.is_empty());
}

fn get_current_timestamp() -> u64 {
    std::time::SystemTime::now().duration_since(std::time::UNIX_EPOCH).unwrap_or_default().as_secs()
}

#[test]
fn test_is_cache_expired() {
    let current_time = get_current_timestamp();

    let fresh_cache = CompilerCache { compilers: Vec::new(), last_updated: current_time };
    assert!(!is_cache_expired(&fresh_cache));

    let old_cache = CompilerCache {
        compilers: Vec::new(),
        last_updated: current_time.saturating_sub(COMPILER_CACHE_DURATION_SECS + 1),
    };
    assert!(is_cache_expired(&old_cache));
}

#[test]
fn cache_expiry_at_given_times() {
    let cache = CompilerCache { compilers: Vec::new(), last_updated: 1000 };
    assert!(!is_cache_expired_at(&cache, 1000 + COMPILER_CACHE_DURATION_SECS));
    assert!(is_cache_expired_at(&cache, 1001 + COMPILER_CACHE_DURATION_SECS));
    assert!(!is_cache_expired_at(&cache, 10));
}

#[test]
fn single_shortlink_decisions() {
    assert_eq!(single_shortlink(&Vec::new()), Ok(None));
    let one = vec!["abc123".to_string()];
    assert_eq!(single_shortlink(&one), Ok(Some(&"abc123".to_string())));
    let two = vec!["abc123".to_string(), "def456".to_string()];
    assert_eq!(single_shortlink(&two), Err(CompilerError::MultipleShortlinks(2)));
}
