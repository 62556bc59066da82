use repoflow::cache::{get_cache_key, refresh_period_secs, CacheKey, MetricsCache, UpstreamError};
use repoflow::github::{GitHubPR, PRState};
use repoflow::metrics::{calculate_metrics, RepoMetricsResponse};

fn snapshot(opened_per_day: usize) -> RepoMetricsResponse {
    let prs: Vec<GitHubPR> = (0..opened_per_day)
        .map(|i| GitHubPR {
            id: i as u64,
            created_at: 1_700_000_000,
            merged_at: None,
            state: PRState::Open,
        })
        .collect();
    calculate_metrics(&prs, 2, 5, 1_700_000_000)
}

fn key(owner: &str, repo: &str) -> CacheKey {
    CacheKey::new(owner, repo)
}

fn opened(m: &Option<RepoMetricsResponse>) -> Option<usize> {
    m.as_ref().map(|m| m.summary.current_opened)
}

fn names(keys: &[CacheKey]) -> Vec<String> {
    let mut v: Vec<String> = keys.iter().map(|k| format!("{}/{}", k.owner, k.repo)).collect();
    v.sort();
    v
}

#[test]
fn insert_then_get_returns_the_value() {
    let mut c = MetricsCache::new(60, 10);
    let expired = c.insert(key("a", "b"), snapshot(3), 100);
    assert!(expired.is_empty());
    assert_eq!(opened(&c.get(&key("a", "b"), 100)), Some(3));
    assert_eq!(opened(&c.get(&key("a", "c"), 100)), None);
}

#[test]
fn get_after_ttl_is_absent() {
    let mut c = MetricsCache::new(60, 10);
    c.insert(key("a", "b"), snapshot(1), 100);
    assert_eq!(opened(&c.get(&key("a", "b"), 159)), Some(1));
    assert_eq!(opened(&c.get(&key("a", "b"), 160)), None);
    assert_eq!(opened(&c.get(&key("a", "b"), 1000)), None);
}

#[test]
fn zero_ttl_never_hits() {
    let mut c = MetricsCache::new(0, 10);
    c.insert(key("a", "b"), snapshot(1), 100);
    assert_eq!(opened(&c.get(&key("a", "b"), 100)), None);
}

#[test]
fn insert_replaces_and_resets_expiry() {
    let mut c = MetricsCache::new(60, 10);
    c.insert(key("a", "b"), snapshot(1), 100);
    c.insert(key("a", "b"), snapshot(2), 150);
    assert_eq!(opened(&c.get(&key("a", "b"), 200)), Some(2));
    assert_eq!(opened(&c.get(&key("a", "b"), 210)), None);
}

#[test]
fn sweep_reports_expired_keys_only() {
    let mut c = MetricsCache::new(60, 10);
    c.insert(key("a", "1"), snapshot(1), 100);
    c.insert(key("a", "2"), snapshot(1), 120);
    c.insert(key("a", "3"), snapshot(1), 150);
    let expired = c.evict_expired(185);
    assert_eq!(names(&expired), vec!["a/1", "a/2"]);
    assert_eq!(opened(&c.get(&key("a", "3"), 185)), Some(1));
    assert!(c.evict_expired(185).is_empty());
}

#[test]
fn insert_reports_what_expired() {
    let mut c = MetricsCache::new(10, 10);
    c.insert(key("a", "1"), snapshot(1), 0);
    let expired = c.insert(key("a", "2"), snapshot(1), 50);
    assert_eq!(names(&expired), vec!["a/1"]);
}

#[test]
fn full_store_evicts_least_recently_used() {
    let mut c = MetricsCache::new(1000, 2);
    c.insert(key("a", "1"), snapshot(1), 0);
    c.insert(key("a", "2"), snapshot(2), 1);
    assert_eq!(opened(&c.get(&key("a", "1"), 2)), Some(1));
    let expired = c.insert(key("a", "3"), snapshot(3), 3);
    assert!(expired.is_empty());
    assert_eq!(opened(&c.get(&key("a", "2"), 4)), None);
    assert_eq!(opened(&c.get(&key("a", "1"), 4)), Some(1));
    assert_eq!(opened(&c.get(&key("a", "3"), 4)), Some(3));
}

#[test]
fn zero_capacity_keeps_nothing() {
    let mut c = MetricsCache::new(1000, 0);
    c.insert(key("a", "1"), snapshot(1), 0);
    assert_eq!(opened(&c.get(&key("a", "1"), 0)), None);
}

#[test]
fn complete_fetch_stores_on_success() {
    let mut c = MetricsCache::new(100, 10);
    let prs = vec![GitHubPR { id: 1, created_at: 1_700_000_000, merged_at: None, state: PRState::Open }];
    let (r, expired) = c.complete_fetch(key("o", "r"), Ok(prs), 2, 5, 1_700_000_000, 7);
    assert!(expired.is_empty());
    let m = r.unwrap();
    assert_eq!(m.time_series.len(), 3);
    assert_eq!(m.summary.current_opened, 1);
    assert_eq!(opened(&c.get(&key("o", "r"), 106)), Some(1));
    assert_eq!(opened(&c.get(&key("o", "r"), 107)), None);
}

#[test]
fn complete_fetch_stores_nothing_on_failure() {
    let mut c = MetricsCache::new(100, 10);
    let (r, _) = c.complete_fetch(key("o", "r"), Err(UpstreamError::NotFound), 2, 5, 0, 7);
    assert_eq!(r.err(), Some(UpstreamError::NotFound));
    assert_eq!(opened(&c.get(&key("o", "r"), 8)), None);
}

#[test]
fn upstream_errors_map_to_status_and_text() {
    assert_eq!(UpstreamError::RateLimited.status_code(), 429);
    assert_eq!(UpstreamError::RateLimited.message(), "GitHub Rate Limit Exceeded");
    assert_eq!(UpstreamError::NotFound.status_code(), 404);
    assert_eq!(UpstreamError::NotFound.message(), "Repository Not Found");
    assert_eq!(UpstreamError::Other.status_code(), 500);
    assert_eq!(UpstreamError::Other.message(), "Internal Server Error");
}

#[test]
fn cache_key_text() {
    assert_eq!(get_cache_key("facebook", "react"), "owner::facebook/repo::react");
    assert_eq!(get_cache_key("", ""), "owner::/repo::");
}

#[test]
fn cache_key_escapes_separators() {
    assert_eq!(get_cache_key("a/b", "c:d%e"), "owner::a%2Fb/repo::c%3Ad%25e");
    assert_ne!(get_cache_key("a/repo::b", "c"), get_cache_key("a", "b/repo::c"));
    assert_ne!(get_cache_key("%2F", "x"), get_cache_key("/", "x"));
}

#[test]
fn keys_compare_by_owner_and_repo() {
    assert!(key("a", "b").same_as(&key("a", "b")));
    assert!(!key("a", "b").same_as(&key("b", "a")));
    assert!(key("x", "y").copied().same_as(&key("x", "y")));
}

#[test]
fn refresh_period_is_half_the_ttl() {
    assert_eq!(refresh_period_secs(86400), 43200);
    assert_eq!(refresh_period_secs(1), 0);
}

#[test]
fn upstream_status_is_tagged() {
    assert_eq!(UpstreamError::from_status(429, false), UpstreamError::RateLimited);
    assert_eq!(UpstreamError::from_status(403, true), UpstreamError::RateLimited);
    assert_eq!(UpstreamError::from_status(403, false), UpstreamError::Other);
    assert_eq!(UpstreamError::from_status(404, false), UpstreamError::NotFound);
    assert_eq!(UpstreamError::from_status(502, true), UpstreamError::Other);
}
