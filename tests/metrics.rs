use chrono::{TimeZone, Utc};
use repoflow::dates::{MAX_LABELLED_TIMESTAMP, MIN_LABELLED_TIMESTAMP};
use repoflow::github::{GitHubPR, PRState};
use repoflow::metrics::{
    calculate_metrics, calculate_summary, metrics_inputs_valid, FlowMetricsResponse,
    RepoMetricsResponse,
};

fn ts(y: i32, m: u32, d: u32, h: u32) -> i64 {
    Utc.with_ymd_and_hms(y, m, d, h, 0, 0).unwrap().timestamp()
}

fn pr(id: u64, created_at: i64, merged_at: Option<i64>) -> GitHubPR {
    let state = if merged_at.is_some() { PRState::Merged } else { PRState::Open };
    GitHubPR { id, created_at, merged_at, state }
}

fn point(date: &str, opened: usize, merged: usize) -> FlowMetricsResponse {
    FlowMetricsResponse {
        date: date.to_string(),
        opened,
        merged,
        spread: opened as i64 - merged as i64,
    }
}

fn same(a: &RepoMetricsResponse, b: &RepoMetricsResponse) -> bool {
    a.summary == b.summary
        && a.time_series.len() == b.time_series.len()
        && a.time_series.iter().zip(b.time_series.iter()).all(|(x, y)| {
            x.date == y.date && x.opened == y.opened && x.merged == y.merged && x.spread == y.spread
        })
}

#[test]
fn test_calculate_metrics_empty() {
    let now = ts(2024, 1, 1, 12);
    let response = calculate_metrics(&[], 1, 30, now);

    assert_eq!(response.time_series.len(), 2);
    assert_eq!(response.summary.current_opened, 0);
    assert_eq!(response.summary.merge_rate, 0);
}

#[test]
fn test_calculate_metrics_with_data() {
    let now = ts(2024, 1, 10, 12);
    let prs = vec![
        GitHubPR {
            id: 1,
            created_at: ts(2024, 1, 5, 10),
            merged_at: Some(ts(2024, 1, 6, 10)),
            state: PRState::Merged,
        },
        GitHubPR { id: 2, created_at: ts(2024, 1, 9, 10), merged_at: None, state: PRState::Open },
    ];

    let response = calculate_metrics(&prs, 0, 30, now);

    assert_eq!(response.time_series.len(), 1);
    assert_eq!(response.summary.current_opened, 2);
    assert_eq!(response.summary.current_merged, 1);
    assert_eq!(response.summary.merge_rate, 50);
}

#[test]
fn test_calculate_summary_empty() {
    let metrics = calculate_summary(&[]);
    assert_eq!(metrics.current_opened, 0);
    assert_eq!(metrics.current_merged, 0);
    assert_eq!(metrics.current_spread, 0);
    assert_eq!(metrics.merge_rate, 0);
    assert_eq!(metrics.is_widening, false);
}

#[test]
fn two_records_single_day_scenario() {
    let now = Utc.with_ymd_and_hms(2024, 1, 10, 12, 0, 0).unwrap().timestamp();
    let prs = vec![
        pr(1, ts(2024, 1, 5, 10), Some(ts(2024, 1, 6, 10))),
        pr(2, ts(2024, 1, 9, 10), None),
    ];
    let r = calculate_metrics(&prs, 0, 30, now);
    assert_eq!(r.time_series.len(), 1);
    let p = &r.time_series[0];
    assert_eq!(p.date, "2024-01-10");
    assert_eq!((p.opened, p.merged, p.spread), (2, 1, 1));
    assert_eq!(r.summary.current_opened, 2);
    assert_eq!(r.summary.current_merged, 1);
    assert_eq!(r.summary.current_spread, 1);
    assert_eq!(r.summary.merge_rate, 50);
    assert!(!r.summary.is_widening);
}

#[test]
fn empty_records_two_zero_points() {
    let r = calculate_metrics(&[], 1, 30, ts(2024, 1, 1, 12));
    assert_eq!(r.time_series.len(), 2);
    assert_eq!(r.time_series[0].date, "2023-12-31");
    assert_eq!(r.time_series[1].date, "2024-01-01");
    for p in &r.time_series {
        assert_eq!((p.opened, p.merged, p.spread), (0, 0, 0));
    }
    assert_eq!(r.summary.merge_rate, 0);
    assert!(!r.summary.is_widening);
}

#[test]
fn series_has_one_point_per_day_oldest_first() {
    let prs = vec![pr(1, ts(2024, 3, 1, 0), None)];
    let r = calculate_metrics(&prs, 5, 3, ts(2024, 3, 3, 23));
    let dates: Vec<&str> = r.time_series.iter().map(|p| p.date.as_str()).collect();
    assert_eq!(
        dates,
        vec!["2024-02-27", "2024-02-28", "2024-02-29", "2024-03-01", "2024-03-02", "2024-03-03"]
    );
    let opened: Vec<usize> = r.time_series.iter().map(|p| p.opened).collect();
    assert_eq!(opened, vec![0, 0, 0, 1, 1, 1]);
}

#[test]
fn zero_window_counts_nothing() {
    let prs = vec![pr(1, ts(2024, 3, 3, 1), Some(ts(2024, 3, 3, 2)))];
    let r = calculate_metrics(&prs, 2, 0, ts(2024, 3, 3, 12));
    assert_eq!(r.time_series.len(), 3);
    assert!(r.time_series.iter().all(|p| p.opened == 0 && p.merged == 0));
}

#[test]
fn records_outside_the_span_are_ignored() {
    let now = ts(2024, 6, 30, 12);
    let prs = vec![
        pr(1, ts(2024, 1, 1, 0), Some(ts(2024, 1, 2, 0))),
        pr(2, ts(2024, 7, 2, 0), None),
        pr(3, ts(2024, 6, 29, 0), Some(ts(2024, 7, 1, 0))),
    ];
    let r = calculate_metrics(&prs, 1, 7, now);
    assert_eq!(r.time_series[0].opened, 1);
    assert_eq!(r.time_series[1].opened, 1);
    assert_eq!(r.time_series[1].merged, 0);
}

#[test]
fn merged_may_exceed_opened() {
    let now = ts(2024, 5, 20, 12);
    let prs = vec![
        pr(1, ts(2024, 4, 1, 0), Some(ts(2024, 5, 19, 0))),
        pr(2, ts(2024, 4, 2, 0), Some(ts(2024, 5, 19, 0))),
        pr(3, ts(2024, 5, 18, 0), Some(ts(2024, 5, 20, 0))),
        pr(4, ts(2024, 5, 18, 0), None),
    ];
    let r = calculate_metrics(&prs, 0, 7, now);
    let p = &r.time_series[0];
    assert_eq!((p.opened, p.merged, p.spread), (2, 3, -1));
    assert_eq!(r.summary.merge_rate, 150);
}

#[test]
fn widening_when_spread_grows() {
    let now = ts(2024, 5, 20, 12);
    let prs = vec![pr(1, ts(2024, 5, 19, 3), None), pr(2, ts(2024, 5, 20, 3), None)];
    let r = calculate_metrics(&prs, 1, 10, now);
    assert_eq!(r.time_series[0].spread, 1);
    assert_eq!(r.time_series[1].spread, 2);
    assert!(r.summary.is_widening);
}

#[test]
fn timestamps_before_1970_use_the_calendar_day() {
    let now = ts(1969, 12, 31, 23);
    let prs = vec![pr(1, ts(1969, 12, 31, 1), None), pr(2, ts(1970, 1, 1, 0), None)];
    let r = calculate_metrics(&prs, 0, 1, now);
    assert_eq!(r.time_series[0].date, "1969-12-31");
    assert_eq!(r.time_series[0].opened, 1);
}

#[test]
fn identical_inputs_give_identical_outputs() {
    let now = ts(2024, 2, 10, 8);
    let prs: Vec<GitHubPR> = (0..40)
        .map(|i| pr(i, now - (i as i64) * 40_000, if i % 3 == 0 { Some(now - (i as i64) * 20_000) } else { None }))
        .collect();
    let a = calculate_metrics(&prs, 10, 7, now);
    let b = calculate_metrics(&prs, 10, 7, now);
    assert!(same(&a, &b));
}

fn naive_count(days: &[i64], day: i64, window: i64) -> usize {
    days.iter().filter(|&&d| day - window < d && d <= day).count()
}

#[test]
fn prefix_sums_match_a_direct_count() {
    let mut seed: u64 = 0x2545_f491_4f6c_dd1d;
    let mut next = move || {
        seed ^= seed << 13;
        seed ^= seed >> 7;
        seed ^= seed << 17;
        seed
    };
    let now = ts(2024, 8, 15, 9);
    for _ in 0..30 {
        let display = (next() % 20) as i64;
        let window = (next() % 15) as i64;
        let n = (next() % 60) as usize;
        let prs: Vec<GitHubPR> = (0..n)
            .map(|i| {
                let created = now - (next() % (40 * 86400)) as i64;
                let merged = if next() % 2 == 0 { Some(created + (next() % (5 * 86400)) as i64) } else { None };
                pr(i as u64, created, merged)
            })
            .collect();
        let r = calculate_metrics(&prs, display, window, now);
        assert_eq!(r.time_series.len(), display as usize + 1);
        let created: Vec<i64> = prs.iter().map(|p| p.created_at.div_euclid(86400)).collect();
        let merged: Vec<i64> = prs.iter().filter_map(|p| p.merged_at.map(|m| m.div_euclid(86400))).collect();
        let today = now.div_euclid(86400);
        for (k, p) in r.time_series.iter().enumerate() {
            let day = today - display + k as i64;
            assert_eq!(p.opened, naive_count(&created, day, window));
            assert_eq!(p.merged, naive_count(&merged, day, window));
            assert_eq!(p.spread, p.opened as i64 - p.merged as i64);
        }
    }
}

#[test]
fn merge_rate_rounds_half_up() {
    let cases = [(3, 1, 33), (8, 1, 13), (3, 2, 67), (40, 1, 3), (7, 7, 100), (5, 0, 0), (0, 4, 0)];
    for (opened, merged, rate) in cases {
        let s = calculate_summary(&[point("2024-01-01", opened, merged)]);
        assert_eq!(s.merge_rate, rate, "opened {} merged {}", opened, merged);
    }
}

#[test]
fn summary_reads_the_last_two_points() {
    let s = calculate_summary(&[point("2024-01-01", 5, 1), point("2024-01-02", 4, 3)]);
    assert_eq!(s.current_opened, 4);
    assert_eq!(s.current_merged, 3);
    assert_eq!(s.current_spread, 1);
    assert_eq!(s.merge_rate, 75);
    assert!(!s.is_widening);
    let single = calculate_summary(&[point("2024-01-02", 4, 1)]);
    assert!(!single.is_widening);
}

#[test]
fn copied_metrics_are_equal() {
    let r = calculate_metrics(&[pr(1, ts(2024, 1, 1, 1), None)], 3, 2, ts(2024, 1, 2, 1));
    assert!(same(&r, &r.copied()));
}

#[test]
fn input_validity() {
    let now = ts(2024, 1, 1, 0);
    assert!(metrics_inputs_valid(10, 30, 30, now));
    assert!(!metrics_inputs_valid(10, -1, 30, now));
    assert!(!metrics_inputs_valid(10, 30, -1, now));
    assert!(!metrics_inputs_valid(10, 30, 30, i64::MAX));
}

#[test]
fn dates_at_the_ends_of_the_calendar() {
    let last = calculate_metrics(&[], 0, 0, MAX_LABELLED_TIMESTAMP);
    assert_eq!(last.time_series[0].date, "+262142-12-31");
    let first = calculate_metrics(&[], 0, 0, MIN_LABELLED_TIMESTAMP);
    assert_eq!(first.time_series[0].date, "-262143-01-01");
    assert!(metrics_inputs_valid(0, 0, 0, MIN_LABELLED_TIMESTAMP));
    assert!(!metrics_inputs_valid(0, 0, 0, MAX_LABELLED_TIMESTAMP + 1));
    assert!(!metrics_inputs_valid(0, 1, 0, MIN_LABELLED_TIMESTAMP));
}
