//! Compiler Explorer shortlinks in queries, and the freshness of the cached compiler list.
use vstd::prelude::*;
use crate::groups::names;

verus! {

/// The cached compiler list is refreshed once it is older than this (in seconds: a day).
pub const COMPILER_CACHE_DURATION_SECS: u64 = 86_400;

/// The pattern of a shortlink; its first group is the link's id.
pub const SHORTLINK_PATTERN: &'static str = r"https://godbolt\.org/z/([A-Za-z0-9]{6,12})\b";

/// Why a query with shortlinks could not be handled.
#[derive(Debug, Clone, PartialEq)]
pub enum CompilerError {
    MultipleShortlinks(usize),
    NetworkError(String),
    ApiError(String),
    InvalidResponse(String),
}

/// A compiler as the compiler list names it.
#[derive(Debug, Clone)]
pub struct CompilerInfo {
    pub id: String,
    pub name: String,
}

/// The cached compiler list and when it was fetched (seconds since the Unix epoch).
#[derive(Debug)]
pub struct CompilerCache {
    pub compilers: Vec<(String, CompilerInfo)>,
    pub last_updated: u64,
}

/// The text of the first capture group of each non-overlapping match of `pattern` in
/// `text`, in order (empty where the group took no part; nothing at all if `pattern` is
/// not a valid expression).
pub uninterp spec fn first_captures(pattern: Seq<char>, text: Seq<char>) -> Seq<Seq<char>>;

/// Relies on `regex::Regex::new`, `Regex::captures_iter` and `Captures::get`: the text of
/// the first capture group of each successive match, which depends on the pattern and
/// the text alone.
#[verifier::external_body]
fn capture_all(pattern: &str, text: &str) -> (r: Vec<String>)
    ensures
        names(r@) == first_captures(pattern@, text@),
{
    match regex::Regex::new(pattern) {
        Ok(re) => re.captures_iter(text).map(|c| c.get(1).map_or(String::new(), |m| m.as_str().to_string())).collect(),
        Err(_) => Vec::new(),
    }
}

/// The ids of the shortlinks in `query`, in order.
pub fn detect_shortlinks(query: &str) -> (r: Result<Vec<String>, CompilerError>)
    ensures
        r is Ok,
        names(r->Ok_0@) == first_captures(SHORTLINK_PATTERN@, query@),
{
    Ok(capture_all(SHORTLINK_PATTERN, query))
}

/// What to do with the shortlink ids found in a query: nothing if there are none, fetch
/// the one if there is one, refuse more than one.
pub fn single_shortlink(ids: &Vec<String>) -> (r: Result<Option<&String>, CompilerError>)
    ensures
        ids@.len() == 0 ==> r == Ok::<Option<&String>, CompilerError>(None),
        ids@.len() == 1 ==> r is Ok && r->Ok_0 is Some && *r->Ok_0->0 == ids@[0],
        ids@.len() > 1 ==> r == Err::<Option<&String>, CompilerError>(CompilerError::MultipleShortlinks(ids@.len() as usize)),
{
    if ids.len() == 0 {
        Ok(None)
    } else if ids.len() > 1 {
        Err(CompilerError::MultipleShortlinks(ids.len()))
    } else {
        Ok(Some(&ids[0]))
    }
}

/// Relies on `std::time::SystemTime::now` and `duration_since(UNIX_EPOCH)`: the current
/// time in whole seconds since the Unix epoch (zero if the clock is before it). Nothing is
/// promised of the value.
#[verifier::external_body]
pub(crate) fn get_current_timestamp() -> (r: u64) {
    std::time::SystemTime::now().duration_since(std::time::UNIX_EPOCH).unwrap_or_default().as_secs()
}

/// The cache fetched at `last_updated` is stale at `now`: more than the cache duration
/// has passed (no time has passed if `now` is earlier).
pub open spec fn cache_is_stale(last_updated: u64, now: u64) -> bool {
    now > last_updated && now - last_updated > COMPILER_CACHE_DURATION_SECS
}

/// Whether `cache` is stale at `now`.
pub fn is_cache_expired_at(cache: &CompilerCache, now: u64) -> (r: bool)
    ensures
        r == cache_is_stale(cache.last_updated, now),
{
    now.saturating_sub(cache.last_updated) > COMPILER_CACHE_DURATION_SECS
}

/// Whether `cache` is stale now.
pub fn is_cache_expired(cache: &CompilerCache) -> (r: bool)
    ensures
        exists|now: u64| r == cache_is_stale(cache.last_updated, now),
{
    let now = get_current_timestamp();
    is_cache_expired_at(cache, now)
}

} // verus!
