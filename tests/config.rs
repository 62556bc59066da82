use repoflow::config::{default_concurrency_limit, parse_popular_repos, AppConfig, RepoId};
use repoflow::HealthResponse;

fn pairs(repos: &[RepoId]) -> Vec<(String, String)> {
    repos.iter().map(|r| (r.owner.clone(), r.repo.clone())).collect()
}

fn p(o: &str, r: &str) -> (String, String) {
    (o.to_string(), r.to_string())
}

#[test]
fn parses_two_repositories() {
    let repos = parse_popular_repos("owner1/repo1,owner2/repo2");
    assert_eq!(pairs(&repos), vec![p("owner1", "repo1"), p("owner2", "repo2")]);
}

#[test]
fn trims_and_skips_malformed_parts() {
    let repos = parse_popular_repos("  a / b ,bad,c/d/e,, x/y\t,/z");
    assert_eq!(pairs(&repos), vec![p("a", "b"), p("x", "y"), p("", "z")]);
}

#[test]
fn empty_list_has_no_repositories() {
    assert!(parse_popular_repos("").is_empty());
    assert!(parse_popular_repos(" , ").is_empty());
}

#[test]
fn unicode_white_space_is_trimmed() {
    let repos = parse_popular_repos("\u{3000}rust-lang/rust\u{a0}");
    assert_eq!(pairs(&repos), vec![p("rust-lang", "rust")]);
}

#[test]
fn default_limit_is_ten() {
    assert_eq!(default_concurrency_limit(), 10);
}

#[test]
fn cache_ttl_is_in_seconds() {
    let config = AppConfig {
        pr_fetch_days: 100,
        max_github_api_pages: 5,
        metrics_days_to_display: 15,
        metrics_window_size: 15,
        cache_ttl_seconds: 3600,
        cache_max_capacity: 500,
        popular_repos: vec![],
        popular_repos_concurrency_limit: 5,
        github_token: None,
    };
    assert_eq!(config.cache_ttl().as_secs(), 3600);
}

#[test]
fn repo_id_displays_as_owner_slash_repo() {
    let id = RepoId { owner: "rust-lang".to_string(), repo: "rust".to_string() };
    assert_eq!(id.to_display_string(), "rust-lang/rust");
}

#[test]
fn health_report() {
    let h = HealthResponse::healthy("1.2.3");
    assert_eq!(h.status, "ok");
    assert_eq!(h.service, "repoflow-backend");
    assert_eq!(h.version, "1.2.3");
}
