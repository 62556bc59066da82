//! The metrics engine: daily opened / merged counts over a trailing window,
//! computed with one pass over the records and prefix sums over day buckets.

use vstd::prelude::*;
use crate::dates::{
    date_label, day_of, day_of_timestamp, end_of_day, format_date, labelled, MAX_LABELLED_TIMESTAMP,
    MIN_LABELLED_TIMESTAMP,
};
use crate::github::GitHubPR;

verus! {

/// Metrics of one repository: a summary and the day-by-day series.
#[derive(Debug, Clone)]
pub struct RepoMetricsResponse {
    /// Summary of the latest day.
    pub summary: SummaryMetrics,
    /// One point per day, oldest first.
    pub time_series: Vec<FlowMetricsResponse>,
}

/// Summary statistics of the latest point of a series.
#[derive(Debug, Clone, Copy, PartialEq, Eq, Structural)]
pub struct SummaryMetrics {
    /// Pull requests opened in the latest window.
    pub current_opened: usize,
    /// Pull requests merged in the latest window.
    pub current_merged: usize,
    /// Opened minus merged in the latest window.
    pub current_spread: i64,
    /// Merged as a rounded percentage of opened (0 when nothing was opened).
    pub merge_rate: u32,
    /// Whether the spread grew from the day before.
    pub is_widening: bool,
}

/// One day of the series.
#[derive(Debug, Clone)]
pub struct FlowMetricsResponse {
    /// The day, as `YYYY-MM-DD`.
    pub date: String,
    /// Pull requests opened in the window ending that day.
    pub opened: usize,
    /// Pull requests merged in the window ending that day.
    pub merged: usize,
    /// Opened minus merged.
    pub spread: i64,
}

impl View for RepoMetricsResponse {
    type V = (SummaryMetrics, Seq<FlowMetricsResponse>);

    open spec fn view(&self) -> (SummaryMetrics, Seq<FlowMetricsResponse>) {
        (self.summary, self.time_series@)
    }
}

impl FlowMetricsResponse {
    /// A copy of the point.
    pub fn copied(&self) -> (p: FlowMetricsResponse)
        ensures
            p == *self,
    {
        FlowMetricsResponse {
            date: self.date.clone(),
            opened: self.opened,
            merged: self.merged,
            spread: self.spread,
        }
    }
}

impl RepoMetricsResponse {
    /// A copy of the metrics.
    pub fn copied(&self) -> (m: RepoMetricsResponse)
        ensures
            m@ == self@,
    {
        let mut time_series: Vec<FlowMetricsResponse> = Vec::with_capacity(self.time_series.len());
        let mut i: usize = 0;
        while i < self.time_series.len()
            invariant
                i <= self.time_series@.len(),
                time_series@ == self.time_series@.subrange(0, i as int),
            decreases self.time_series@.len() - i,
        {
            time_series.push(self.time_series[i].copied());
            i += 1;
            proof {
                assert(time_series@ =~= self.time_series@.subrange(0, i as int));
            }
        }
        proof {
            assert(time_series@ =~= self.time_series@);
        }
        RepoMetricsResponse { summary: self.summary, time_series }
    }
}

pub open spec fn zero_summary() -> SummaryMetrics {
    SummaryMetrics {
        current_opened: 0,
        current_merged: 0,
        current_spread: 0,
        merge_rate: 0,
        is_widening: false,
    }
}

impl Default for SummaryMetrics {
    fn default() -> (s: Self)
        ensures
            s == zero_summary(),
    {
        SummaryMetrics {
            current_opened: 0,
            current_merged: 0,
            current_spread: 0,
            merge_rate: 0,
            is_widening: false,
        }
    }
}

/// `merged / opened * 100` rounded half away from zero, saturated to `u32`;
/// 0 when nothing was opened.
pub open spec fn merge_rate_of(opened: int, merged: int) -> int {
    if opened <= 0 {
        0
    } else {
        let rounded = (200 * merged + opened) / (2 * opened);
        if rounded > u32::MAX {
            u32::MAX as int
        } else {
            rounded
        }
    }
}

/// The summary of a series: its last point, and whether the spread grew
/// from the point before it.
pub open spec fn summary_of(series: Seq<FlowMetricsResponse>) -> SummaryMetrics {
    if series.len() == 0 {
        zero_summary()
    } else {
        let latest = series.last();
        SummaryMetrics {
            current_opened: latest.opened,
            current_merged: latest.merged,
            current_spread: latest.spread,
            merge_rate: merge_rate_of(latest.opened as int, latest.merged as int) as u32,
            is_widening: series.len() >= 2 && latest.spread > series[series.len() - 2].spread,
        }
    }
}

/// How many of `days` fall in the half-open range `(lo, hi]`.
pub open spec fn count_between(days: Seq<int>, lo: int, hi: int) -> nat
    decreases days.len(),
{
    if days.len() == 0 {
        0
    } else {
        count_between(days.drop_last(), lo, hi) + if lo < days.last() && days.last() <= hi {
            1nat
        } else {
            0nat
        }
    }
}

/// The creation day of each record.
pub open spec fn created_days(records: Seq<GitHubPR>) -> Seq<int> {
    records.map_values(|r: GitHubPR| day_of(r.created_at as int))
}

/// The merge day of each merged record, in record order.
pub open spec fn merged_days(records: Seq<GitHubPR>) -> Seq<int>
    decreases records.len(),
{
    if records.len() == 0 {
        Seq::empty()
    } else {
        let rest = merged_days(records.drop_last());
        match records.last().merged_at {
            Some(t) => rest.push(day_of(t as int)),
            None => rest,
        }
    }
}

/// Records opened in the window of `window` days that ends on `day`.
pub open spec fn opened_in_window(records: Seq<GitHubPR>, day: int, window: int) -> nat {
    count_between(created_days(records), day - window, day)
}

/// Records merged in the window of `window` days that ends on `day`.
pub open spec fn merged_in_window(records: Seq<GitHubPR>, day: int, window: int) -> nat {
    count_between(merged_days(records), day - window, day)
}

/// A point holds the label and the window counts of `day`.
pub open spec fn point_matches(
    p: FlowMetricsResponse,
    records: Seq<GitHubPR>,
    day: int,
    window: int,
) -> bool {
    &&& p.date@ == date_label(end_of_day(day))
    &&& p.opened == opened_in_window(records, day, window)
    &&& p.merged == merged_in_window(records, day, window)
    &&& p.spread == p.opened - p.merged
}

/// The series has `display + 1` points; point `k` is the day `display - k`
/// days before the day of `now`.
pub open spec fn series_matches(
    series: Seq<FlowMetricsResponse>,
    records: Seq<GitHubPR>,
    now: int,
    display: int,
    window: int,
) -> bool {
    &&& series.len() == display + 1
    &&& forall|k: int|
        0 <= k <= display ==> point_matches(
            #[trigger] series[k],
            records,
            day_of(now) - display + k,
            window,
        )
}

/// What the engine needs of its inputs: non-negative lengths, a bucket
/// array that fits in memory, counts that fit a spread, and dates that can
/// be labelled.
pub open spec fn metrics_inputs_ok(records: nat, display: int, window: int, now: int) -> bool {
    &&& 0 <= display
    &&& 0 <= window
    &&& display + window + 1 <= usize::MAX
    &&& records <= i64::MAX
    &&& labelled(end_of_day(day_of(now) - display))
    &&& labelled(end_of_day(day_of(now)))
}

proof fn lemma_count_le_len(days: Seq<int>, lo: int, hi: int)
    ensures
        count_between(days, lo, hi) <= days.len(),
    decreases days.len(),
{
    if days.len() > 0 {
        lemma_count_le_len(days.drop_last(), lo, hi);
    }
}

/// Counting over `(lo, hi]` is counting over `(lo, mid]` and over `(mid, hi]`.
pub proof fn lemma_count_split(days: Seq<int>, lo: int, mid: int, hi: int)
    requires
        lo <= mid <= hi,
    ensures
        count_between(days, lo, hi) == count_between(days, lo, mid) + count_between(days, mid, hi),
    decreases days.len(),
{
    if days.len() > 0 {
        lemma_count_split(days.drop_last(), lo, mid, hi);
    }
}

/// The rolling count of a window is the difference of two prefix counts
/// taken from a fixed first day: the prefix-sum query gives what a direct
/// count of the days in `(day - window, day]` gives.
pub proof fn lemma_window_by_prefix(days: Seq<int>, first: int, day: int, window: int)
    requires
        0 <= window,
        first <= day - window,
    ensures
        count_between(days, day - window, day) == count_between(days, first - 1, day)
            - count_between(days, first - 1, day - window),
{
    lemma_count_split(days, first - 1, day - window, day);
}

proof fn lemma_count_empty(days: Seq<int>, lo: int, hi: int)
    requires
        hi <= lo,
    ensures
        count_between(days, lo, hi) == 0,
    decreases days.len(),
{
    if days.len() > 0 {
        lemma_count_empty(days.drop_last(), lo, hi);
    }
}

proof fn lemma_merged_days_len(records: Seq<GitHubPR>)
    ensures
        merged_days(records).len() <= records.len(),
    decreases records.len(),
{
    if records.len() > 0 {
        lemma_merged_days_len(records.drop_last());
    }
}

/// Buckets that each count one day add up to the count over their days.
proof fn lemma_tally_prefix(counts: Seq<usize>, days: Seq<int>, start: int, n: int)
    requires
        0 <= n <= counts.len(),
        forall|j: int|
            0 <= j < counts.len() ==> #[trigger] counts[j] == count_between(
                days,
                start + j - 1,
                start + j,
            ),
    ensures
        sum_first(counts, n) == count_between(days, start - 1, start + n - 1),
    decreases n,
{
    if n == 0 {
        lemma_count_empty(days, start - 1, start - 1);
    } else {
        lemma_tally_prefix(counts, days, start, n - 1);
        lemma_count_split(days, start - 1, start + n - 2, start + n - 1);
        assert(counts[n - 1] == count_between(days, start + (n - 1) - 1, start + (n - 1)));
    }
}

/// Adding one day to the counted days adds one to the bucket of that day.
proof fn lemma_tally_push(
    counts: Seq<usize>,
    bumped: Seq<usize>,
    days: Seq<int>,
    start: int,
    day: int,
)
    requires
        forall|j: int|
            0 <= j < counts.len() ==> #[trigger] counts[j] == count_between(
                days,
                start + j - 1,
                start + j,
            ),
        start <= day < start + counts.len() ==> counts[day - start] < usize::MAX,
        bumped == if start <= day < start + counts.len() {
            counts.update(day - start, (counts[day - start] + 1) as usize)
        } else {
            counts
        },
    ensures
        forall|j: int|
            0 <= j < bumped.len() ==> #[trigger] bumped[j] == count_between(
                days.push(day),
                start + j - 1,
                start + j,
            ),
{
    assert(days.push(day).drop_last() =~= days);
    assert forall|j: int| 0 <= j < bumped.len() implies #[trigger] bumped[j] == count_between(
        days.push(day),
        start + j - 1,
        start + j,
    ) by {
        assert(counts[j] == count_between(days, start + j - 1, start + j));
    }
}

/// Sum of the first `n` entries.
pub open spec fn sum_first(s: Seq<usize>, n: int) -> int
    decreases n,
{
    if n <= 0 {
        0
    } else {
        sum_first(s, n - 1) + s[n - 1]
    }
}

proof fn lemma_sum_first_mono(s: Seq<usize>, a: int, b: int)
    requires
        0 <= a <= b,
    ensures
        sum_first(s, a) <= sum_first(s, b),
    decreases b - a,
{
    if a < b {
        lemma_sum_first_mono(s, a, b - 1);
    }
}

/// Day numbers that the bucket arithmetic handles without overflow.
spec fn day_bounded(day: int) -> bool {
    -0x4_0000_0000_0000_0000 <= day <= 0x4_0000_0000_0000_0000
}

/// Daily event counts over the days `start_day ..= end_day`.
struct Timeline {
    start_day: i128,
    end_day: i128,
    counts: Vec<usize>,
}

impl Timeline {
    /// Bucket `j` counts the events of day `start_day + j`.
    spec fn tallies(&self, days: Seq<int>) -> bool {
        forall|j: int|
            0 <= j < self.counts@.len() ==> #[trigger] self.counts@[j] == count_between(
                days,
                self.start_day + j - 1,
                self.start_day + j,
            )
    }

    fn new(start_day: i128, end_day: i128) -> (t: Self)
        requires
            day_bounded(start_day as int),
            day_bounded(end_day as int),
            end_day - start_day + 1 <= usize::MAX,
        ensures
            t.start_day == start_day,
            t.end_day == end_day,
            t.counts@.len() == if start_day <= end_day {
                end_day - start_day + 1
            } else {
                0
            },
            forall|j: int| 0 <= j < t.counts@.len() ==> t.counts@[j] == 0,
    {
        let days = end_day - start_day;
        let size: usize = if days >= 0 {
            (days + 1) as usize
        } else {
            0
        };
        Timeline { start_day, end_day, counts: vec![0; size] }
    }

    /// Counts one event on `day`; days outside the range are ignored.
    fn increment(&mut self, day: i128)
        requires
            day_bounded(old(self).start_day as int),
            day_bounded(day as int),
            old(self).counts@.len() == old(self).end_day - old(self).start_day + 1,
            old(self).start_day <= day <= old(self).end_day ==> old(self).counts@[day
                - old(self).start_day] < usize::MAX,
        ensures
            final(self).start_day == old(self).start_day,
            final(self).end_day == old(self).end_day,
            final(self).counts@ == if old(self).start_day <= day <= old(self).end_day {
                old(self).counts@.update(
                    day - old(self).start_day,
                    (old(self).counts@[day - old(self).start_day] + 1) as usize,
                )
            } else {
                old(self).counts@
            },
    {
        if day >= self.start_day && day <= self.end_day {
            let idx = (day - self.start_day) as usize;
            if idx < self.counts.len() {
                self.counts[idx] += 1;
            }
        }
    }

    /// Running totals: entry `j` is the sum of buckets `0 ..= j`.
    fn into_prefix_sums(self) -> (p: PrefixTimeline)
        requires
            sum_first(self.counts@, self.counts@.len() as int) <= usize::MAX,
        ensures
            p.start_day == self.start_day,
            p.prefix_counts@.len() == self.counts@.len(),
            forall|j: int|
                0 <= j < p.prefix_counts@.len() ==> #[trigger] p.prefix_counts@[j] == sum_first(
                    self.counts@,
                    j + 1,
                ),
    {
        let mut prefix_counts: Vec<usize> = Vec::with_capacity(self.counts.len());
        let mut sum: usize = 0;
        let mut i: usize = 0;
        while i < self.counts.len()
            invariant
                i <= self.counts@.len(),
                prefix_counts@.len() == i,
                sum == sum_first(self.counts@, i as int),
                sum_first(self.counts@, self.counts@.len() as int) <= usize::MAX,
                forall|j: int|
                    0 <= j < i ==> #[trigger] prefix_counts@[j] == sum_first(self.counts@, j + 1),
            decreases self.counts@.len() - i,
        {
            proof {
                lemma_sum_first_mono(self.counts@, i + 1, self.counts@.len() as int);
            }
            sum = sum + self.counts[i];
            prefix_counts.push(sum);
            i += 1;
        }
        PrefixTimeline { start_day: self.start_day, prefix_counts }
    }
}

/// Running totals of a timeline, for range sums in constant time.
struct PrefixTimeline {
    start_day: i128,
    prefix_counts: Vec<usize>,
}

impl PrefixTimeline {
    /// The running total at an index: 0 before the first bucket, the last
    /// total after the last one.
    spec fn total_at(&self, idx: int) -> int {
        if idx < 0 {
            0
        } else if idx < self.prefix_counts@.len() {
            self.prefix_counts@[idx] as int
        } else if self.prefix_counts@.len() > 0 {
            self.prefix_counts@.last() as int
        } else {
            0
        }
    }

    /// Events in the window `(end_day - window, end_day]`, clamped to zero.
    fn sum_in_window(&self, end_day: i128, window: i128) -> (n: usize)
        requires
            0 <= window <= usize::MAX,
            day_bounded(self.start_day as int),
            day_bounded(end_day as int),
        ensures
            n == if end_day < self.start_day {
                0
            } else {
                let d = self.total_at(end_day - self.start_day) - self.total_at(
                    end_day - self.start_day - window,
                );
                if d < 0 {
                    0
                } else {
                    d
                }
            },
    {
        let end_idx_signed = end_day - self.start_day;
        if end_idx_signed < 0 {
            return 0;
        }
        let len = self.prefix_counts.len();
        let end_val = if (end_idx_signed as u128) < (len as u128) {
            self.prefix_counts[end_idx_signed as usize]
        } else if len > 0 {
            self.prefix_counts[len - 1]
        } else {
            0
        };
        let start_idx_signed = end_idx_signed - window;
        let start_val = if start_idx_signed < 0 {
            0
        } else if (start_idx_signed as u128) < (len as u128) {
            self.prefix_counts[start_idx_signed as usize]
        } else if len > 0 {
            self.prefix_counts[len - 1]
        } else {
            0
        };
        if end_val >= start_val {
            end_val - start_val
        } else {
            0
        }
    }
}

/// Whether the engine accepts these inputs.
pub fn metrics_inputs_valid(records: usize, days_to_display: i64, window_size: i64, now: i64) -> (ok:
    bool)
    ensures
        ok == metrics_inputs_ok(records as nat, days_to_display as int, window_size as int, now as int),
{
    let now_day = day_of_timestamp(now) as i128;
    let display = days_to_display as i128;
    let window = window_size as i128;
    let lowest = MIN_LABELLED_TIMESTAMP as i128;
    let highest = MAX_LABELLED_TIMESTAMP as i128;
    let oldest_end = (now_day - display) * 86400 + 86399;
    let latest_end = now_day * 86400 + 86399;
    display >= 0 && window >= 0 && display + window + 1 <= usize::MAX as i128 && records as u128
        <= i64::MAX as u128 && lowest <= oldest_end && oldest_end <= highest && lowest <= latest_end
        && latest_end <= highest
}

/// Rolling-window flow metrics of `prs` for the `days_to_display + 1` days
/// that end on the day of `now` (Unix seconds), each day counting the
/// records opened, and those merged, in the `window_size` days that end on
/// it.
pub fn calculate_metrics(
    prs: &[GitHubPR],
    days_to_display: i64,
    window_size: i64,
    now: i64,
) -> (r: RepoMetricsResponse)
    requires
        metrics_inputs_ok(prs@.len(), days_to_display as int, window_size as int, now as int),
    ensures
        series_matches(
            r.time_series@,
            prs@,
            now as int,
            days_to_display as int,
            window_size as int,
        ),
        r.summary == summary_of(r.time_series@),
{
    let latest_day = day_of_timestamp(now) as i128;
    let display = days_to_display as i128;
    let window = window_size as i128;
    let oldest_display_day = latest_day - display;
    let start_day = oldest_display_day - window;

    let mut opened_timeline = Timeline::new(start_day, latest_day);
    let mut merged_timeline = Timeline::new(start_day, latest_day);
    let ghost span = latest_day - start_day + 1;

    let mut i: usize = 0;
    while i < prs.len()
        invariant
            i <= prs@.len() <= i64::MAX,
            span == latest_day - start_day + 1,
            1 <= span <= usize::MAX,
            day_bounded(start_day as int),
            day_bounded(latest_day as int),
            opened_timeline.start_day == start_day,
            opened_timeline.end_day == latest_day,
            opened_timeline.counts@.len() == span,
            merged_timeline.start_day == start_day,
            merged_timeline.end_day == latest_day,
            merged_timeline.counts@.len() == span,
            opened_timeline.tallies(created_days(prs@.subrange(0, i as int))),
            merged_timeline.tallies(merged_days(prs@.subrange(0, i as int))),
        decreases prs@.len() - i,
    {
        let pr = prs[i];
        let created = day_of_timestamp(pr.created_at) as i128;
        let ghost before = prs@.subrange(0, i as int);
        let ghost after = prs@.subrange(0, i + 1);
        proof {
            assert(after.drop_last() =~= before);
            assert(created_days(after) =~= created_days(before).push(created as int));
            lemma_count_le_len(
                created_days(before),
                start_day + (created - start_day) - 1,
                start_day + (created - start_day),
            );
        }
        let ghost opened_before = opened_timeline.counts@;
        opened_timeline.increment(created);
        proof {
            lemma_tally_push(
                opened_before,
                opened_timeline.counts@,
                created_days(before),
                start_day as int,
                created as int,
            );
        }
        if let Some(merged_at) = pr.merged_at {
            let merged = day_of_timestamp(merged_at) as i128;
            proof {
                assert(merged_days(after) == merged_days(before).push(merged as int));
                lemma_merged_days_len(before);
                lemma_count_le_len(
                    merged_days(before),
                    start_day + (merged - start_day) - 1,
                    start_day + (merged - start_day),
                );
            }
            let ghost merged_before = merged_timeline.counts@;
            merged_timeline.increment(merged);
            proof {
                lemma_tally_push(
                    merged_before,
                    merged_timeline.counts@,
                    merged_days(before),
                    start_day as int,
                    merged as int,
                );
            }
        } else {
            proof {
                assert(merged_days(after) == merged_days(before));
            }
        }
        i += 1;
    }
    let ghost opened_days = created_days(prs@);
    let ghost merged_days_all = merged_days(prs@);
    proof {
        assert(prs@.subrange(0, prs@.len() as int) =~= prs@);
        lemma_tally_prefix(opened_timeline.counts@, opened_days, start_day as int, span);
        lemma_tally_prefix(merged_timeline.counts@, merged_days_all, start_day as int, span);
        lemma_count_le_len(opened_days, start_day - 1, start_day + span - 1);
        lemma_count_le_len(merged_days_all, start_day - 1, start_day + span - 1);
        lemma_merged_days_len(prs@);
    }
    let ghost opened_counts = opened_timeline.counts@;
    let ghost merged_counts = merged_timeline.counts@;
    let opened_prefix = opened_timeline.into_prefix_sums();
    let merged_prefix = merged_timeline.into_prefix_sums();
    proof {
        assert forall|j: int| 0 <= j < span implies #[trigger] opened_prefix.prefix_counts@[j]
            == count_between(opened_days, start_day - 1, start_day + j) by {
            lemma_tally_prefix(opened_counts, opened_days, start_day as int, j + 1);
        }
        assert forall|j: int| 0 <= j < span implies #[trigger] merged_prefix.prefix_counts@[j]
            == count_between(merged_days_all, start_day - 1, start_day + j) by {
            lemma_tally_prefix(merged_counts, merged_days_all, start_day as int, j + 1);
        }
    }

    let mut time_series: Vec<FlowMetricsResponse> = Vec::new();
    let mut k: i128 = 0;
    while k <= display
        invariant
            0 <= display,
            0 <= window,
            display == days_to_display,
            window == window_size,
            latest_day == day_of(now as int),
            oldest_display_day == latest_day - display,
            start_day == oldest_display_day - window,
            span == latest_day - start_day + 1,
            1 <= span <= usize::MAX,
            prs@.len() <= i64::MAX,
            day_bounded(start_day as int),
            day_bounded(latest_day as int),
            labelled(end_of_day(oldest_display_day as int)),
            labelled(end_of_day(latest_day as int)),
            0 <= k <= display + 1,
            time_series@.len() == k,
            opened_days == created_days(prs@),
            merged_days_all == merged_days(prs@),
            opened_days.len() == prs@.len(),
            merged_days_all.len() <= prs@.len(),
            opened_prefix.start_day == start_day,
            merged_prefix.start_day == start_day,
            opened_prefix.prefix_counts@.len() == span,
            merged_prefix.prefix_counts@.len() == span,
            forall|j: int|
                0 <= j < span ==> #[trigger] opened_prefix.prefix_counts@[j] == count_between(
                    opened_days,
                    start_day - 1,
                    start_day + j,
                ),
            forall|j: int|
                0 <= j < span ==> #[trigger] merged_prefix.prefix_counts@[j] == count_between(
                    merged_days_all,
                    start_day - 1,
                    start_day + j,
                ),
            forall|j: int|
                0 <= j < k ==> point_matches(
                    #[trigger] time_series@[j],
                    prs@,
                    day_of(now as int) - days_to_display + j,
                    window_size as int,
                ),
        decreases display + 1 - k,
    {
        let day = oldest_display_day + k;
        let opened = opened_prefix.sum_in_window(day, window);
        let merged = merged_prefix.sum_in_window(day, window);
        proof {
            assert(opened_prefix.prefix_counts@[window + k] == count_between(
                opened_days, start_day - 1, start_day + (window + k)));
            assert(opened_prefix.prefix_counts@[k as int] == count_between(
                opened_days, start_day - 1, start_day + k));
            assert(merged_prefix.prefix_counts@[window + k] == count_between(
                merged_days_all, start_day - 1, start_day + (window + k)));
            assert(merged_prefix.prefix_counts@[k as int] == count_between(
                merged_days_all, start_day - 1, start_day + k));
            lemma_window_by_prefix(opened_days, start_day as int, day as int, window as int);
            lemma_window_by_prefix(merged_days_all, start_day as int, day as int, window as int);
            lemma_count_le_len(opened_days, day - window, day as int);
            lemma_count_le_len(merged_days_all, day - window, day as int);
            assert(end_of_day(oldest_display_day as int) <= end_of_day(day as int)
                <= end_of_day(latest_day as int)) by (nonlinear_arith)
                requires
                    oldest_display_day <= day <= latest_day,
            ;
        }
        let stamp = day * 86400 + 86399;
        let date = format_date(stamp as i64);
        time_series.push(
            FlowMetricsResponse { date, opened, merged, spread: opened as i64 - merged as i64 },
        );
        k += 1;
    }
    let summary = calculate_summary(time_series.as_slice());
    RepoMetricsResponse { summary, time_series }
}

/// With no records every point counts nothing, and the summary is all
/// zero: merge rate 0 and no widening.
pub proof fn lemma_no_records(
    series: Seq<FlowMetricsResponse>,
    now: int,
    display: int,
    window: int,
)
    requires
        0 <= display,
        series_matches(series, Seq::empty(), now, display, window),
    ensures
        forall|k: int|
            0 <= k < series.len() ==> #[trigger] series[k].opened == 0 && series[k].merged == 0
                && series[k].spread == 0,
        summary_of(series) == zero_summary(),
{
    let none = Seq::<GitHubPR>::empty();
    assert(created_days(none) =~= Seq::<int>::empty());
    assert(merged_days(none) =~= Seq::<int>::empty());
    assert forall|k: int| 0 <= k < series.len() implies #[trigger] series[k].opened == 0
        && series[k].merged == 0 && series[k].spread == 0 by {
        assert(point_matches(series[k], none, day_of(now) - display + k, window));
    }
    assert(series.last() == series[series.len() - 1]);
}

/// The engine is a function of its inputs: two results for the same
/// records, lengths and instant agree point by point and in their summary.
pub proof fn lemma_metrics_deterministic(
    records: Seq<GitHubPR>,
    now: int,
    display: int,
    window: int,
    a: Seq<FlowMetricsResponse>,
    b: Seq<FlowMetricsResponse>,
)
    requires
        series_matches(a, records, now, display, window),
        series_matches(b, records, now, display, window),
    ensures
        a.len() == b.len(),
        forall|k: int|
            0 <= k < a.len() ==> {
                &&& (#[trigger] a[k]).date@ == b[k].date@
                &&& a[k].opened == b[k].opened
                &&& a[k].merged == b[k].merged
                &&& a[k].spread == b[k].spread
            },
        summary_of(a) == summary_of(b),
{
    assert forall|k: int| 0 <= k < a.len() implies {
        &&& (#[trigger] a[k]).date@ == b[k].date@
        &&& a[k].opened == b[k].opened
        &&& a[k].merged == b[k].merged
        &&& a[k].spread == b[k].spread
    } by {
        assert(point_matches(a[k], records, day_of(now) - display + k, window));
        assert(point_matches(b[k], records, day_of(now) - display + k, window));
    }
    if a.len() >= 1 {
        assert(a[a.len() - 1].spread == b[b.len() - 1].spread);
    }
    if a.len() >= 2 {
        assert(a[a.len() - 2].spread == b[b.len() - 2].spread);
    }
}

/// The merge rate of a window.
fn merge_rate(opened: usize, merged: usize) -> (rate: u32)
    ensures
        rate == merge_rate_of(opened as int, merged as int),
{
    if opened == 0 {
        0
    } else {
        let numerator: u128 = 200 * (merged as u128) + opened as u128;
        let denominator: u128 = 2 * (opened as u128);
        let rounded = numerator / denominator;
        if rounded > u32::MAX as u128 {
            u32::MAX
        } else {
            rounded as u32
        }
    }
}

/// Summary statistics of the latest point of a series.
pub fn calculate_summary(time_series: &[FlowMetricsResponse]) -> (summary: SummaryMetrics)
    ensures
        summary == summary_of(time_series@),
{
    let n = time_series.len();
    if n == 0 {
        return SummaryMetrics::default();
    }
    let latest = &time_series[n - 1];
    let merge_rate = merge_rate(latest.opened, latest.merged);
    let is_widening = n >= 2 && latest.spread > time_series[n - 2].spread;
    SummaryMetrics {
        current_opened: latest.opened,
        current_merged: latest.merged,
        current_spread: latest.spread,
        merge_rate,
        is_widening,
    }
}

} // verus!
