//! Pull-request records as the metrics engine reads them.

use vstd::prelude::*;

verus! {

/// The state of a pull request.
#[derive(Debug, Clone, Copy, PartialEq, Eq, Structural)]
pub enum PRState {
    /// Open and active.
    Open,
    /// Closed without being merged.
    Closed,
    /// Merged into its target branch.
    Merged,
    /// Not known.
    Unknown,
}

/// A pull request reduced to what flow metrics need. Instants are Unix
/// seconds (UTC).
#[derive(Debug, Clone, Copy, PartialEq, Eq, Structural)]
pub struct GitHubPR {
    /// The database id of the pull request.
    pub id: u64,
    /// When the pull request was opened.
    pub created_at: i64,
    /// When it was merged, if it was.
    pub merged_at: Option<i64>,
    /// Its state.
    pub state: PRState,
}

/// The state of an issue or pull request as the upstream source reports it.
#[derive(Debug, Clone, Copy, PartialEq, Eq, Structural)]
pub enum IssueState {
    /// Open.
    Open,
    /// Closed, merged or not.
    Closed,
    /// A state this library does not know.
    Other,
}

/// A pull request as the upstream source lists it, reduced to plain values.
#[derive(Debug, Clone, Copy, PartialEq, Eq, Structural)]
pub struct RawPullRequest {
    /// The database id.
    pub id: u64,
    /// When it was opened, if the source says.
    pub created_at: Option<i64>,
    /// When it was merged, if it was.
    pub merged_at: Option<i64>,
    /// Its issue state, if the source says.
    pub state: Option<IssueState>,
}

/// A merged pull request is `Merged`; otherwise its issue state decides.
pub open spec fn state_of(merged: bool, state: Option<IssueState>) -> PRState {
    if merged {
        PRState::Merged
    } else {
        match state {
            Some(IssueState::Open) => PRState::Open,
            Some(IssueState::Closed) => PRState::Closed,
            _ => PRState::Unknown,
        }
    }
}

/// The record of a listed pull request; none without a creation time.
pub open spec fn pr_of(raw: RawPullRequest) -> Option<GitHubPR> {
    match raw.created_at {
        Some(created_at) => Some(
            GitHubPR {
                id: raw.id,
                created_at,
                merged_at: raw.merged_at,
                state: state_of(raw.merged_at is Some, raw.state),
            },
        ),
        None => None,
    }
}

/// The records of a page, in page order.
pub open spec fn prs_of(page: Seq<RawPullRequest>) -> Seq<GitHubPR>
    decreases page.len(),
{
    if page.len() == 0 {
        Seq::empty()
    } else {
        let rest = prs_of(page.drop_last());
        match pr_of(page.last()) {
            Some(pr) => rest.push(pr),
            None => rest,
        }
    }
}

/// The records of the pull requests opened at or after `cutoff`, in order.
pub open spec fn since(prs: Seq<GitHubPR>, cutoff: i64) -> Seq<GitHubPR>
    decreases prs.len(),
{
    if prs.len() == 0 {
        Seq::empty()
    } else {
        let rest = since(prs.drop_last(), cutoff);
        if prs.last().created_at >= cutoff {
            rest.push(prs.last())
        } else {
            rest
        }
    }
}

/// `days` days before `now`, saturated to the range of `i64`.
pub open spec fn cutoff_of(now: int, days: int) -> int {
    let c = now - days * 86400;
    if c < i64::MIN {
        i64::MIN as int
    } else if c > i64::MAX {
        i64::MAX as int
    } else {
        c
    }
}

/// The state of a listed pull request.
pub fn pr_state(merged: bool, state: Option<IssueState>) -> (s: PRState)
    ensures
        s == state_of(merged, state),
{
    if merged {
        PRState::Merged
    } else {
        match state {
            Some(IssueState::Open) => PRState::Open,
            Some(IssueState::Closed) => PRState::Closed,
            _ => PRState::Unknown,
        }
    }
}

/// The records of a page of listed pull requests; those without a
/// creation time are skipped.
pub fn process_pr_page(page: &[RawPullRequest]) -> (prs: Vec<GitHubPR>)
    ensures
        prs@ == prs_of(page@),
{
    let mut prs: Vec<GitHubPR> = Vec::new();
    let mut i: usize = 0;
    while i < page.len()
        invariant
            i <= page@.len(),
            prs@ == prs_of(page@.subrange(0, i as int)),
        decreases page@.len() - i,
    {
        let raw = page[i];
        proof {
            assert(page@.subrange(0, i + 1).drop_last() =~= page@.subrange(0, i as int));
        }
        if let Some(created_at) = raw.created_at {
            let state = pr_state(raw.merged_at.is_some(), raw.state);
            prs.push(GitHubPR { id: raw.id, created_at, merged_at: raw.merged_at, state });
        }
        i += 1;
    }
    proof {
        assert(page@.subrange(0, page@.len() as int) =~= page@);
    }
    prs
}

/// The oldest creation time to fetch: `days` days before `now`.
pub fn fetch_cutoff(now: i64, days: i64) -> (cutoff: i64)
    ensures
        cutoff == cutoff_of(now as int, days as int),
{
    let c = now as i128 - (days as i128) * 86400;
    if c < i64::MIN as i128 {
        i64::MIN
    } else if c > i64::MAX as i128 {
        i64::MAX
    } else {
        c as i64
    }
}

/// Whether to fetch another page, once a page has been added to `prs`
/// (newest first): not after an empty page, nor once the oldest record
/// fetched was opened before `cutoff`.
pub fn wants_next_page(prs: &[GitHubPR], page_was_empty: bool, cutoff: i64) -> (more: bool)
    ensures
        more == (!page_was_empty && !(prs@.len() > 0 && prs@.last().created_at < cutoff)),
{
    if page_was_empty {
        return false;
    }
    let n = prs.len();
    !(n > 0 && prs[n - 1].created_at < cutoff)
}

/// Keeps the records of pull requests opened at or after `cutoff`.
pub fn retain_since(prs: &[GitHubPR], cutoff: i64) -> (kept: Vec<GitHubPR>)
    ensures
        kept@ == since(prs@, cutoff),
{
    let mut kept: Vec<GitHubPR> = Vec::new();
    let mut i: usize = 0;
    while i < prs.len()
        invariant
            i <= prs@.len(),
            kept@ == since(prs@.subrange(0, i as int), cutoff),
        decreases prs@.len() - i,
    {
        proof {
            assert(prs@.subrange(0, i + 1).drop_last() =~= prs@.subrange(0, i as int));
        }
        if prs[i].created_at >= cutoff {
            kept.push(prs[i]);
        }
        i += 1;
    }
    proof {
        assert(prs@.subrange(0, prs@.len() as int) =~= prs@);
    }
    kept
}

} // verus!
