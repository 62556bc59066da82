//! Service settings, and the list of repositories to keep warm.

use vstd::prelude::*;
use crate::text::{chars_of, split_on, split_ranges, trim, trim_range};

verus! {

/// A repository, by owner and name.
#[derive(Clone, Debug, PartialEq, Eq, Hash)]
pub struct RepoId {
    /// The owner of the repository (`facebook`).
    pub owner: String,
    /// The name of the repository (`react`).
    pub repo: String,
}

impl View for RepoId {
    type V = (Seq<char>, Seq<char>);

    open spec fn view(&self) -> (Seq<char>, Seq<char>) {
        (self.owner@, self.repo@)
    }
}

pub open spec fn repo_id_text(owner: Seq<char>, repo: Seq<char>) -> Seq<char> {
    owner + "/"@ + repo
}

impl RepoId {
    /// The repository as `owner/repo`.
    pub fn to_display_string(&self) -> (text: String)
        ensures
            text@ == repo_id_text(self.owner@, self.repo@),
    {
        let mut text = self.owner.clone();
        text.append("/");
        text.append(self.repo.as_str());
        text
    }
}

/// Settings of the service.
#[derive(Clone, Debug)]
pub struct AppConfig {
    /// Days of pull-request history to fetch.
    pub pr_fetch_days: i64,
    /// Most pages of pull requests to fetch per repository.
    pub max_github_api_pages: u32,
    /// Days shown before today in the series.
    pub metrics_days_to_display: i64,
    /// Length of the rolling window, in days.
    pub metrics_window_size: i64,
    /// Time to live of cached metrics, in seconds.
    pub cache_ttl_seconds: u64,
    /// Most entries the cache holds.
    pub cache_max_capacity: u64,
    /// Repositories whose metrics are kept warm.
    pub popular_repos: Vec<RepoId>,
    /// Most refreshes of popular repositories in flight at once.
    pub popular_repos_concurrency_limit: usize,
    /// Token for the upstream source, if any.
    pub github_token: Option<String>,
}

/// Relies on `Duration::from_secs`, which builds a duration of that many
/// whole seconds and does not panic.
pub assume_specification[ core::time::Duration::from_secs ](secs: u64) -> core::time::Duration;

impl AppConfig {
    /// The time to live of cached metrics.
    pub fn cache_ttl(&self) -> core::time::Duration {
        core::time::Duration::from_secs(self.cache_ttl_seconds)
    }
}

/// The concurrency limit when none is configured.
pub fn default_concurrency_limit() -> (limit: usize)
    ensures
        limit == 10,
{
    10
}

/// The repository named by one comma-separated part: two names around a
/// single `/`, each trimmed.
pub open spec fn repo_of_part(part: Seq<char>) -> Option<(Seq<char>, Seq<char>)> {
    let pieces = split_on(trim(part), '/');
    if pieces.len() == 2 {
        Some((trim(pieces[0]), trim(pieces[1])))
    } else {
        None
    }
}

/// The repositories named by the parts that name one, in order.
pub open spec fn repos_of(parts: Seq<Seq<char>>) -> Seq<(Seq<char>, Seq<char>)>
    decreases parts.len(),
{
    if parts.len() == 0 {
        Seq::empty()
    } else {
        let rest = repos_of(parts.drop_last());
        match repo_of_part(parts.last()) {
            Some(r) => rest.push(r),
            None => rest,
        }
    }
}

/// The repositories of a comma-separated list of `owner/repo`.
pub open spec fn popular_repos_of(s: Seq<char>) -> Seq<(Seq<char>, Seq<char>)> {
    repos_of(split_on(s, ','))
}

/// Parses a comma-separated list of `owner/repo`; parts that are not of
/// that shape are skipped.
pub fn parse_popular_repos(s: &str) -> (repos: Vec<RepoId>)
    ensures
        repos@.map_values(|r: RepoId| r@) == popular_repos_of(s@),
{
    let chars = chars_of(s);
    let ghost whole = chars@.subrange(0, chars@.len() as int);
    proof {
        assert(whole =~= s@);
    }
    let parts = split_ranges(&chars, 0, chars.len(), ',');
    let ghost spec_parts = split_on(s@, ',');
    let mut repos: Vec<RepoId> = Vec::new();
    let mut i: usize = 0;
    while i < parts.len()
        invariant
            chars@ == s@,
            spec_parts == split_on(s@, ','),
            parts@.len() == spec_parts.len(),
            forall|j: int|
                0 <= j < parts@.len() ==> 0 <= (#[trigger] parts@[j]).0 <= parts@[j].1
                    <= chars@.len() && chars@.subrange(parts@[j].0 as int, parts@[j].1 as int)
                    == spec_parts[j],
            i <= parts@.len(),
            repos@.map_values(|r: RepoId| r@) == repos_of(spec_parts.subrange(0, i as int)),
        decreases parts@.len() - i,
    {
        let (a, b) = parts[i];
        let ghost part = spec_parts[i as int];
        let (ta, tb) = trim_range(&chars, a, b);
        let pieces = split_ranges(&chars, ta, tb, '/');
        let ghost done = spec_parts.subrange(0, i as int);
        proof {
            assert(spec_parts.subrange(0, i + 1).drop_last() =~= done);
            assert(spec_parts.subrange(0, i + 1).last() == part);
        }
        if pieces.len() == 2 {
            let (oa, ob) = trim_range(&chars, pieces[0].0, pieces[0].1);
            let (ra, rb) = trim_range(&chars, pieces[1].0, pieces[1].1);
            let owner = String::from_str(s.substring_char(oa, ob));
            let repo = String::from_str(s.substring_char(ra, rb));
            let id = RepoId { owner, repo };
            let ghost before = repos@;
            repos.push(id);
            proof {
                assert(repos@.map_values(|r: RepoId| r@) =~= before.map_values(|r: RepoId| r@).push(
                    id@,
                ));
            }
        } else {
            proof {
                assert(repo_of_part(part) is None);
            }
        }
        i += 1;
    }
    proof {
        assert(spec_parts.subrange(0, parts@.len() as int) =~= spec_parts);
    }
    repos
}

} // verus!
