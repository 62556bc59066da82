use repoflow::github::{
    fetch_cutoff, pr_state, process_pr_page, retain_since, wants_next_page, GitHubPR, IssueState,
    PRState, RawPullRequest,
};

fn raw(id: u64, created_at: Option<i64>, merged_at: Option<i64>, state: Option<IssueState>) -> RawPullRequest {
    RawPullRequest { id, created_at, merged_at, state }
}

fn pr(id: u64, created_at: i64) -> GitHubPR {
    GitHubPR { id, created_at, merged_at: None, state: PRState::Open }
}

#[test]
fn page_records_skip_missing_creation_times() {
    let page = vec![
        raw(1, Some(100), None, Some(IssueState::Open)),
        raw(2, None, None, Some(IssueState::Open)),
        raw(3, Some(90), Some(95), Some(IssueState::Closed)),
        raw(4, Some(80), None, Some(IssueState::Closed)),
        raw(5, Some(70), None, None),
        raw(6, Some(60), None, Some(IssueState::Other)),
    ];
    let prs = process_pr_page(&page);
    let ids: Vec<u64> = prs.iter().map(|p| p.id).collect();
    assert_eq!(ids, vec![1, 3, 4, 5, 6]);
    let states: Vec<PRState> = prs.iter().map(|p| p.state).collect();
    assert_eq!(
        states,
        vec![PRState::Open, PRState::Merged, PRState::Closed, PRState::Unknown, PRState::Unknown]
    );
    assert_eq!(prs[1].merged_at, Some(95));
}

#[test]
fn merged_wins_over_issue_state() {
    assert_eq!(pr_state(true, Some(IssueState::Closed)), PRState::Merged);
    assert_eq!(pr_state(false, Some(IssueState::Open)), PRState::Open);
    assert_eq!(pr_state(false, None), PRState::Unknown);
}

#[test]
fn cutoff_is_days_before_now() {
    assert_eq!(fetch_cutoff(1_000_000, 2), 1_000_000 - 172_800);
    assert_eq!(fetch_cutoff(i64::MIN + 5, 1), i64::MIN);
    assert_eq!(fetch_cutoff(0, -1), 86400);
}

#[test]
fn paging_stops_at_empty_page_or_old_record() {
    let prs = vec![pr(1, 500), pr(2, 400)];
    assert!(wants_next_page(&prs, false, 300));
    assert!(!wants_next_page(&prs, false, 450));
    assert!(!wants_next_page(&prs, true, 300));
    assert!(wants_next_page(&[], false, 300));
}

#[test]
fn retain_keeps_records_at_or_after_cutoff() {
    let prs = vec![pr(1, 500), pr(2, 400), pr(3, 300), pr(4, 450)];
    let kept: Vec<u64> = retain_since(&prs, 400).iter().map(|p| p.id).collect();
    assert_eq!(kept, vec![1, 2, 4]);
}
