//! A time-bounded cache of metrics: entries expire a fixed time after they
//! were stored, the number of entries is bounded, and a sweep reports each
//! key whose entry expired so that it can be refreshed.
//!
//! The store reads no clock of its own: each operation takes the current
//! time, so what it holds is a function of the calls made on it.

use vstd::prelude::*;
use crate::github::GitHubPR;
use crate::metrics::{
    calculate_metrics, metrics_inputs_ok, series_matches, summary_of, FlowMetricsResponse,
    RepoMetricsResponse, SummaryMetrics,
};

verus! {

/// Identifies the cached metrics of one repository.
#[derive(Debug, Clone, PartialEq, Eq, Hash)]
pub struct CacheKey {
    /// The owner of the repository.
    pub owner: String,
    /// The name of the repository.
    pub repo: String,
}

impl View for CacheKey {
    type V = (Seq<char>, Seq<char>);

    open spec fn view(&self) -> (Seq<char>, Seq<char>) {
        (self.owner@, self.repo@)
    }
}

impl CacheKey {
    /// The key of the repository `owner/repo`.
    pub fn new(owner: &str, repo: &str) -> (k: CacheKey)
        ensures
            k@ == (owner@, repo@),
    {
        CacheKey { owner: String::from_str(owner), repo: String::from_str(repo) }
    }

    /// Whether two keys name the same repository.
    pub fn same_as(&self, other: &CacheKey) -> (b: bool)
        ensures
            b == (self@ == other@),
    {
        self.owner == other.owner && self.repo == other.repo
    }

    /// A copy of the key.
    pub fn copied(&self) -> (k: CacheKey)
        ensures
            k@ == self@,
    {
        CacheKey { owner: self.owner.clone(), repo: self.repo.clone() }
    }
}

/// What a cached entry holds: the metrics and the time they expire.
pub type CachedView = ((SummaryMetrics, Seq<FlowMetricsResponse>), u64);

/// When an entry stored at `now` expires.
pub open spec fn expiry(now: u64, ttl: u64) -> u64 {
    if now + ttl > u64::MAX {
        u64::MAX
    } else {
        (now + ttl) as u64
    }
}

/// What a lookup at `now` finds: the value of an entry that has not yet
/// expired.
pub open spec fn lookup(
    m: Map<(Seq<char>, Seq<char>), CachedView>,
    key: (Seq<char>, Seq<char>),
    now: u64,
) -> Option<(SummaryMetrics, Seq<FlowMetricsResponse>)> {
    if m.contains_key(key) && now < m[key].1 {
        Some(m[key].0)
    } else {
        None
    }
}

pub open spec fn view_of_option(
    r: Option<RepoMetricsResponse>,
) -> Option<(SummaryMetrics, Seq<FlowMetricsResponse>)> {
    match r {
        Some(m) => Some(m@),
        None => None,
    }
}

/// An entry stored at `stored` is found by a lookup at that same instant
/// (when entries live at least one second), and by no lookup once its time
/// to live has elapsed.
pub proof fn lemma_ttl_lookup(
    m: Map<(Seq<char>, Seq<char>), CachedView>,
    key: (Seq<char>, Seq<char>),
    value: (SummaryMetrics, Seq<FlowMetricsResponse>),
    stored: u64,
    ttl: u64,
    later: u64,
)
    requires
        m.contains_key(key),
        m[key] == (value, expiry(stored, ttl)),
    ensures
        ttl > 0 && stored < u64::MAX ==> lookup(m, key, stored) == Some(value),
        later >= stored + ttl ==> lookup(m, key, later) is None,
{
}

/// Why the upstream source gave no records.
#[derive(Debug, Clone, Copy, PartialEq, Eq, Structural)]
pub enum UpstreamError {
    /// The source refused for its rate limit.
    RateLimited,
    /// The repository does not exist.
    NotFound,
    /// Any other failure.
    Other,
}

impl UpstreamError {
    pub open spec fn status_spec(self) -> u16 {
        match self {
            UpstreamError::RateLimited => 429,
            UpstreamError::NotFound => 404,
            UpstreamError::Other => 500,
        }
    }

    pub open spec fn message_spec(self) -> Seq<char> {
        match self {
            UpstreamError::RateLimited => "GitHub Rate Limit Exceeded"@,
            UpstreamError::NotFound => "Repository Not Found"@,
            UpstreamError::Other => "Internal Server Error"@,
        }
    }

    pub open spec fn from_status_spec(status: u16, says_rate_limit: bool) -> UpstreamError {
        if status == 429 || (status == 403 && says_rate_limit) {
            UpstreamError::RateLimited
        } else if status == 404 {
            UpstreamError::NotFound
        } else {
            UpstreamError::Other
        }
    }

    /// The error of a failed upstream request, from its HTTP status and
    /// whether its message speaks of a rate limit (GitHub refuses with 403
    /// or 429 when it is exceeded).
    pub fn from_status(status: u16, says_rate_limit: bool) -> (e: UpstreamError)
        ensures
            e == Self::from_status_spec(status, says_rate_limit),
    {
        if status == 429 || (status == 403 && says_rate_limit) {
            UpstreamError::RateLimited
        } else if status == 404 {
            UpstreamError::NotFound
        } else {
            UpstreamError::Other
        }
    }

    /// The HTTP status that reports the error to a caller.
    pub fn status_code(&self) -> (code: u16)
        ensures
            code == self.status_spec(),
    {
        match self {
            UpstreamError::RateLimited => 429,
            UpstreamError::NotFound => 404,
            UpstreamError::Other => 500,
        }
    }

    /// The text that reports the error to a caller.
    pub fn message(&self) -> (text: String)
        ensures
            text@ == self.message_spec(),
    {
        match self {
            UpstreamError::RateLimited => String::from_str("GitHub Rate Limit Exceeded"),
            UpstreamError::NotFound => String::from_str("Repository Not Found"),
            UpstreamError::Other => String::from_str("Internal Server Error"),
        }
    }
}

/// A character as it stands in a text key: `%`, `/` and `:` are written
/// `%25`, `%2F` and `%3A`; any other character stands for itself.
pub open spec fn escaped_char(c: char) -> Seq<char> {
    if c == '%' {
        seq!['%', '2', '5']
    } else if c == '/' {
        seq!['%', '2', 'F']
    } else if c == ':' {
        seq!['%', '3', 'A']
    } else {
        seq![c]
    }
}

/// A name as it stands in a text key, character by character.
pub open spec fn escaped(s: Seq<char>) -> Seq<char>
    decreases s.len(),
{
    if s.len() == 0 {
        Seq::empty()
    } else {
        escaped_char(s[0]) + escaped(s.subrange(1, s.len() as int))
    }
}

/// The text key of a repository: `owner::<owner>/repo::<repo>`, each name
/// escaped.
pub open spec fn cache_key_text(owner: Seq<char>, repo: Seq<char>) -> Seq<char> {
    "owner::"@ + escaped(owner) + "/repo::"@ + escaped(repo)
}

proof fn lemma_escaped_append(a: Seq<char>, b: Seq<char>)
    ensures
        escaped(a + b) == escaped(a) + escaped(b),
    decreases a.len(),
{
    if a.len() == 0 {
        assert(a + b =~= b);
        assert(escaped(a) + escaped(b) =~= escaped(b));
    } else {
        let rest = a.subrange(1, a.len() as int);
        assert((a + b)[0] == a[0]);
        assert((a + b).subrange(1, (a + b).len() as int) =~= rest + b);
        lemma_escaped_append(rest, b);
        assert(escaped_char(a[0]) + (escaped(rest) + escaped(b)) =~= (escaped_char(a[0])
            + escaped(rest)) + escaped(b));
    }
}

proof fn lemma_escaped_no_slash(s: Seq<char>)
    ensures
        forall|i: int| 0 <= i < escaped(s).len() ==> #[trigger] escaped(s)[i] != '/',
    decreases s.len(),
{
    if s.len() > 0 {
        let rest = s.subrange(1, s.len() as int);
        lemma_escaped_no_slash(rest);
        let head = escaped_char(s[0]);
        assert forall|i: int| 0 <= i < escaped(s).len() implies #[trigger] escaped(s)[i] != '/' by {
            if i < head.len() {
                assert(escaped(s)[i] == head[i]);
            } else {
                assert(escaped(s)[i] == escaped(rest)[i - head.len()]);
            }
        }
    }
}

proof fn lemma_escaped_injective(a: Seq<char>, b: Seq<char>)
    requires
        escaped(a) == escaped(b),
    ensures
        a == b,
    decreases a.len(),
{
    if a.len() == 0 {
        if b.len() > 0 {
            assert(escaped(b).len() >= escaped_char(b[0]).len());
        }
        assert(a =~= b);
    } else {
        if b.len() == 0 {
            assert(escaped(a).len() >= escaped_char(a[0]).len());
        }
        let ea = escaped_char(a[0]);
        let eb = escaped_char(b[0]);
        let ra = a.subrange(1, a.len() as int);
        let rb = b.subrange(1, b.len() as int);
        assert(escaped(a)[0] == ea[0]);
        assert(escaped(b)[0] == eb[0]);
        if ea.len() == 3 {
            assert(escaped(a)[1] == ea[1]);
            assert(escaped(a)[2] == ea[2]);
            assert(escaped(b)[1] == eb[1]);
            assert(escaped(b)[2] == eb[2]);
        }
        assert(a[0] == b[0]);
        assert(escaped(ra) =~= escaped(a).subrange(ea.len() as int, escaped(a).len() as int));
        assert(escaped(rb) =~= escaped(b).subrange(eb.len() as int, escaped(b).len() as int));
        lemma_escaped_injective(ra, rb);
        assert(a =~= seq![a[0]] + ra);
        assert(b =~= seq![b[0]] + rb);
    }
}

/// Distinct repositories have distinct text keys.
pub proof fn lemma_cache_key_injective(
    owner1: Seq<char>,
    repo1: Seq<char>,
    owner2: Seq<char>,
    repo2: Seq<char>,
)
    requires
        cache_key_text(owner1, repo1) == cache_key_text(owner2, repo2),
    ensures
        owner1 == owner2,
        repo1 == repo2,
{
    reveal_strlit("owner::");
    reveal_strlit("/repo::");
    let p = "owner::"@;
    let q = "/repo::"@;
    let e1 = escaped(owner1);
    let e2 = escaped(owner2);
    let f1 = escaped(repo1);
    let f2 = escaped(repo2);
    let n1 = e1.len() as int;
    let n2 = e2.len() as int;
    let k = cache_key_text(owner1, repo1);
    assert(k =~= p + e1 + q + f1);
    assert(k =~= p + e2 + q + f2);
    lemma_escaped_no_slash(owner1);
    lemma_escaped_no_slash(owner2);
    assert(q[0] == '/');
    assert(k[7 + n1] == '/');
    assert(k[7 + n2] == '/');
    if e1.len() < e2.len() {
        assert(k[7 + n1] == e2[e1.len() as int]);
    }
    if e2.len() < e1.len() {
        assert(k[7 + n2] == e1[e2.len() as int]);
    }
    assert(e1.len() == e2.len());
    assert(e1 =~= k.subrange(7, 7 + n1));
    assert(e2 =~= k.subrange(7, 7 + n2));
    assert(f1 =~= k.subrange(14 + n1, k.len() as int));
    assert(f2 =~= k.subrange(14 + n2, k.len() as int));
    lemma_escaped_injective(owner1, owner2);
    lemma_escaped_injective(repo1, repo2);
}

/// Appends `s` to `k`, escaped.
fn append_escaped(k: &mut String, s: &str)
    ensures
        final(k)@ == old(k)@ + escaped(s@),
{
    let ghost start = k@;
    let n = s.unicode_len();
    let mut i: usize = 0;
    while i < n
        invariant
            n == s@.len(),
            i <= n,
            k@ == start + escaped(s@.subrange(0, i as int)),
        decreases n - i,
    {
        let c = s.get_char(i);
        let ghost before = k@;
        if c == '%' {
            k.append("%25");
        } else if c == '/' {
            k.append("%2F");
        } else if c == ':' {
            k.append("%3A");
        } else {
            k.append(s.substring_char(i, i + 1));
        }
        proof {
            reveal_strlit("%25");
            reveal_strlit("%2F");
            reveal_strlit("%3A");
            assert("%25"@ =~= seq!['%', '2', '5']);
            assert("%2F"@ =~= seq!['%', '2', 'F']);
            assert("%3A"@ =~= seq!['%', '3', 'A']);
            assert(s@.subrange(i as int, i + 1) =~= seq![c]);
            let single = seq![c];
            assert(single.subrange(1, 1) =~= Seq::<char>::empty());
            assert(escaped(single.subrange(1, 1)) == Seq::<char>::empty());
            assert(single[0] == c);
            assert(escaped(single) == escaped_char(c) + escaped(single.subrange(1, 1)));
            assert(escaped(single) =~= escaped_char(c));
            assert(s@.subrange(0, i + 1) =~= s@.subrange(0, i as int) + single);
            lemma_escaped_append(s@.subrange(0, i as int), single);
            assert(k@ =~= before + escaped_char(c));
        }
        i += 1;
    }
    proof {
        assert(s@.subrange(0, n as int) =~= s@);
    }
}

/// The text key of a repository; distinct repositories get distinct keys
/// (`lemma_cache_key_injective`).
pub fn get_cache_key(owner: &str, repo: &str) -> (k: String)
    ensures
        k@ == cache_key_text(owner@, repo@),
{
    let mut k = String::from_str("owner::");
    append_escaped(&mut k, owner);
    k.append("/repo::");
    append_escaped(&mut k, repo);
    k
}

/// How often the preload targets are refreshed: half the time to live, so
/// that they are refreshed before they expire.
pub fn refresh_period_secs(ttl_secs: u64) -> (period: u64)
    ensures
        period == ttl_secs / 2,
{
    ttl_secs / 2
}

/// No key is listed twice.
pub open spec fn keys_distinct(keys: Seq<CacheKey>) -> bool {
    forall|i: int, j: int|
        0 <= i < keys.len() && 0 <= j < keys.len() && i != j ==> (#[trigger] keys[i])@ != (
        #[trigger] keys[j])@
}

/// The keys of `keys` are exactly the keys of `m` whose entry expired by
/// `now`, each listed once.
pub open spec fn reports_expired(
    keys: Seq<CacheKey>,
    m: Map<(Seq<char>, Seq<char>), CachedView>,
    now: u64,
) -> bool {
    &&& keys_distinct(keys)
    &&& forall|k: (Seq<char>, Seq<char>)|
        (exists|i: int| 0 <= i < keys.len() && #[trigger] keys[i]@ == k) <==> (
        #[trigger] m.contains_key(k) && m[k].1 <= now)
}

/// Every entry of `before` that is live at `now`, but those of `key` and
/// `victim`, is still in `after`.
pub open spec fn keeps_live_except(
    before: Map<(Seq<char>, Seq<char>), CachedView>,
    after: Map<(Seq<char>, Seq<char>), CachedView>,
    key: (Seq<char>, Seq<char>),
    victim: (Seq<char>, Seq<char>),
    now: u64,
) -> bool {
    forall|k: (Seq<char>, Seq<char>)|
        k != key && k != victim && #[trigger] before.contains_key(k) && now < before[k].1
            ==> after.contains_key(k)
}

/// `key` was used no later than any entry of `m` that is live at `now`.
pub open spec fn least_recent_live(
    m: Map<(Seq<char>, Seq<char>), CachedView>,
    recency: Map<(Seq<char>, Seq<char>), u64>,
    key: (Seq<char>, Seq<char>),
    now: u64,
) -> bool {
    forall|k: (Seq<char>, Seq<char>)|
        #[trigger] m.contains_key(k) && now < m[k].1 ==> recency[key] <= recency[k]
}

/// What storing `value` under `key` at `now` does to a store: every
/// clause of `MetricsCache::insert` on the other keys, and on `key` itself.
pub open spec fn stored_after(
    before: Map<(Seq<char>, Seq<char>), CachedView>,
    before_recency: Map<(Seq<char>, Seq<char>), u64>,
    after: Map<(Seq<char>, Seq<char>), CachedView>,
    after_recency: Map<(Seq<char>, Seq<char>), u64>,
    key: (Seq<char>, Seq<char>),
    value: (SummaryMetrics, Seq<FlowMetricsResponse>),
    now: u64,
    ttl: u64,
    capacity: u64,
    after_size: nat,
) -> bool {
    &&& capacity > 0 ==> after.contains_key(key) && after[key] == (value, expiry(now, ttl))
    &&& capacity == 0 ==> !after.contains_key(key)
    &&& forall|k: (Seq<char>, Seq<char>)|
        k != key && #[trigger] after.contains_key(k) ==> before.contains_key(k) && now
            < before[k].1 && after[k] == before[k] && after_recency[k] == before_recency[k]
    &&& exists|victim: (Seq<char>, Seq<char>)| #[trigger]
        keeps_live_except(before, after, key, victim, now)
    &&& forall|k: (Seq<char>, Seq<char>)|
        k != key && #[trigger] before.contains_key(k) && now < before[k].1 && !after.contains_key(
            k,
        ) ==> least_recent_live(before, before_recency, k, now)
    &&& (exists|k: (Seq<char>, Seq<char>)|
        k != key && #[trigger] before.contains_key(k) && now < before[k].1 && !after.contains_key(
            k,
        )) ==> after_size == capacity
}

struct Entry {
    key: CacheKey,
    value: RepoMetricsResponse,
    expires_at: u64,
}

spec fn keys_unique(s: Seq<Entry>) -> bool {
    forall|i: int, j: int|
        0 <= i < s.len() && 0 <= j < s.len() && i != j ==> (#[trigger] s[i]).key@ != (
        #[trigger] s[j]).key@
}

spec fn has_key(s: Seq<Entry>, k: (Seq<char>, Seq<char>)) -> bool {
    exists|i: int| 0 <= i < s.len() && (#[trigger] s[i]).key@ == k
}

spec fn index_of(s: Seq<Entry>, k: (Seq<char>, Seq<char>)) -> int {
    choose|i: int| 0 <= i < s.len() && (#[trigger] s[i]).key@ == k
}

spec fn entries_map(s: Seq<Entry>) -> Map<(Seq<char>, Seq<char>), CachedView> {
    Map::new(
        |k: (Seq<char>, Seq<char>)| has_key(s, k),
        |k: (Seq<char>, Seq<char>)| (s[index_of(s, k)].value@, s[index_of(s, k)].expires_at),
    )
}

proof fn lemma_entry_at(s: Seq<Entry>, i: int)
    requires
        keys_unique(s),
        0 <= i < s.len(),
    ensures
        entries_map(s).contains_key(s[i].key@),
        index_of(s, s[i].key@) == i,
        entries_map(s)[s[i].key@] == (s[i].value@, s[i].expires_at),
{
    assert(has_key(s, s[i].key@));
    let j = index_of(s, s[i].key@);
    assert(s[j].key@ == s[i].key@);
}

proof fn lemma_remove_entry(s: Seq<Entry>, i: int)
    requires
        keys_unique(s),
        0 <= i < s.len(),
    ensures
        keys_unique(s.remove(i)),
        entries_map(s.remove(i)) == entries_map(s).remove(s[i].key@),
{
    let t = s.remove(i);
    let gone = s[i].key@;
    assert forall|a: int, b: int|
        0 <= a < t.len() && 0 <= b < t.len() && a != b implies (#[trigger] t[a]).key@ != (
        #[trigger] t[b]).key@ by {
        let sa = if a < i { a } else { a + 1 };
        let sb = if b < i { b } else { b + 1 };
        assert(t[a] == s[sa]);
        assert(t[b] == s[sb]);
    }
    assert forall|k: (Seq<char>, Seq<char>)| #[trigger]
        entries_map(t).contains_key(k) == entries_map(s).remove(gone).contains_key(k) by {
        if has_key(t, k) {
            let a = index_of(t, k);
            let sa = if a < i { a } else { a + 1 };
            assert(t[a] == s[sa]);
            assert(sa != i);
            assert(s[sa].key@ == k);
        }
        if has_key(s, k) && k != gone {
            let j = index_of(s, k);
            assert(j != i);
            let ta = if j < i { j } else { j - 1 };
            assert(t[ta] == s[j]);
        }
    }
    assert forall|k: (Seq<char>, Seq<char>)| #[trigger] entries_map(t).contains_key(k) implies
        entries_map(t)[k] == entries_map(s)[k] by {
        let a = index_of(t, k);
        let sa = if a < i { a } else { a + 1 };
        assert(t[a] == s[sa]);
        lemma_entry_at(s, sa);
    }
    assert(entries_map(t) =~= entries_map(s).remove(gone));
}

proof fn lemma_push_entry(s: Seq<Entry>, e: Entry)
    requires
        keys_unique(s),
        !has_key(s, e.key@),
    ensures
        keys_unique(s.push(e)),
        entries_map(s.push(e)) == entries_map(s).insert(e.key@, (e.value@, e.expires_at)),
{
    let t = s.push(e);
    assert forall|a: int, b: int|
        0 <= a < t.len() && 0 <= b < t.len() && a != b implies (#[trigger] t[a]).key@ != (
        #[trigger] t[b]).key@ by {
        if a < s.len() {
            assert(t[a] == s[a]);
        }
        if b < s.len() {
            assert(t[b] == s[b]);
        }
    }
    lemma_entry_at(t, s.len() as int);
    assert forall|k: (Seq<char>, Seq<char>)| #[trigger]
        entries_map(t).contains_key(k) == entries_map(s).insert(
            e.key@,
            (e.value@, e.expires_at),
        ).contains_key(k) by {
        if has_key(s, k) {
            let j = index_of(s, k);
            assert(t[j] == s[j]);
        }
        if has_key(t, k) && k != e.key@ {
            let a = index_of(t, k);
            assert(a < s.len());
            assert(t[a] == s[a]);
        }
    }
    assert forall|k: (Seq<char>, Seq<char>)| #[trigger] entries_map(t).contains_key(k) && k
        != e.key@ implies entries_map(t)[k] == entries_map(s)[k] by {
        let j = index_of(s, k);
        assert(t[j] == s[j]);
        lemma_entry_at(s, j);
        lemma_entry_at(t, j);
    }
    assert(entries_map(t) =~= entries_map(s).insert(e.key@, (e.value@, e.expires_at)));
}

proof fn lemma_replace_entry(s: Seq<Entry>, i: int, e: Entry)
    requires
        keys_unique(s),
        0 <= i < s.len(),
        e.key@ == s[i].key@,
    ensures
        keys_unique(s.update(i, e)),
        entries_map(s.update(i, e)) == entries_map(s).insert(e.key@, (e.value@, e.expires_at)),
{
    let t = s.update(i, e);
    assert forall|a: int, b: int|
        0 <= a < t.len() && 0 <= b < t.len() && a != b implies (#[trigger] t[a]).key@ != (
        #[trigger] t[b]).key@ by {
        assert(s[a].key@ != s[b].key@);
    }
    lemma_entry_at(t, i);
    assert forall|k: (Seq<char>, Seq<char>)| #[trigger]
        entries_map(t).contains_key(k) == entries_map(s).insert(
            e.key@,
            (e.value@, e.expires_at),
        ).contains_key(k) by {
        if has_key(s, k) {
            let j = index_of(s, k);
            assert(j == i || t[j] == s[j]);
        }
        if has_key(t, k) {
            let a = index_of(t, k);
            assert(a == i || t[a] == s[a]);
        }
    }
    assert forall|k: (Seq<char>, Seq<char>)| #[trigger] entries_map(t).contains_key(k) && k
        != e.key@ implies entries_map(t)[k] == entries_map(s)[k] by {
        let j = index_of(s, k);
        assert(j != i);
        assert(t[j] == s[j]);
        lemma_entry_at(s, j);
        lemma_entry_at(t, j);
    }
    assert(entries_map(t) =~= entries_map(s).insert(e.key@, (e.value@, e.expires_at)));
}

spec fn recency_map(s: Seq<Entry>, used: Seq<u64>) -> Map<(Seq<char>, Seq<char>), u64> {
    Map::new(|k: (Seq<char>, Seq<char>)| has_key(s, k), |k: (Seq<char>, Seq<char>)| used[index_of(s, k)])
}

proof fn lemma_recency_remove(s: Seq<Entry>, used: Seq<u64>, i: int)
    requires
        keys_unique(s),
        used.len() == s.len(),
        0 <= i < s.len(),
    ensures
        recency_map(s.remove(i), used.remove(i)) == recency_map(s, used).remove(s[i].key@),
{
    let t = s.remove(i);
    lemma_remove_entry(s, i);
    assert forall|k: (Seq<char>, Seq<char>)| #[trigger]
        recency_map(t, used.remove(i)).contains_key(k) == recency_map(s, used).remove(
            s[i].key@,
        ).contains_key(k) by {
        assert(entries_map(t).contains_key(k) == entries_map(s).remove(s[i].key@).contains_key(k));
    }
    assert forall|k: (Seq<char>, Seq<char>)| #[trigger]
        recency_map(t, used.remove(i)).contains_key(k) implies recency_map(t, used.remove(i))[k]
        == recency_map(s, used)[k] by {
        let a = index_of(t, k);
        let sa = if a < i { a } else { a + 1 };
        assert(t[a] == s[sa]);
        assert(used.remove(i)[a] == used[sa]);
        lemma_entry_at(s, sa);
    }
    assert(recency_map(t, used.remove(i)) =~= recency_map(s, used).remove(s[i].key@));
}

proof fn lemma_recency_set(s: Seq<Entry>, used: Seq<u64>, i: int, stamp: u64)
    requires
        keys_unique(s),
        used.len() == s.len(),
        0 <= i < s.len(),
    ensures
        recency_map(s, used.update(i, stamp)) == recency_map(s, used).insert(s[i].key@, stamp),
{
    lemma_entry_at(s, i);
    assert forall|k: (Seq<char>, Seq<char>)| #[trigger]
        recency_map(s, used.update(i, stamp)).contains_key(k) && k != s[i].key@ implies recency_map(
        s,
        used.update(i, stamp),
    )[k] == recency_map(s, used)[k] by {
        let j = index_of(s, k);
        lemma_entry_at(s, j);
    }
    assert(recency_map(s, used.update(i, stamp)) =~= recency_map(s, used).insert(s[i].key@, stamp));
}

proof fn lemma_recency_replace(s: Seq<Entry>, used: Seq<u64>, i: int, e: Entry, stamp: u64)
    requires
        keys_unique(s),
        used.len() == s.len(),
        0 <= i < s.len(),
        e.key@ == s[i].key@,
    ensures
        recency_map(s.update(i, e), used.update(i, stamp)) == recency_map(s, used).insert(
            e.key@,
            stamp,
        ),
{
    let t = s.update(i, e);
    lemma_replace_entry(s, i, e);
    lemma_entry_at(t, i);
    assert forall|k: (Seq<char>, Seq<char>)| #[trigger]
        recency_map(t, used.update(i, stamp)).contains_key(k) == recency_map(s, used).insert(
            e.key@,
            stamp,
        ).contains_key(k) by {
        assert(entries_map(t).contains_key(k) == entries_map(s).insert(
            e.key@,
            (e.value@, e.expires_at),
        ).contains_key(k));
    }
    assert forall|k: (Seq<char>, Seq<char>)| #[trigger]
        recency_map(t, used.update(i, stamp)).contains_key(k) && k != e.key@ implies recency_map(
        t,
        used.update(i, stamp),
    )[k] == recency_map(s, used)[k] by {
        let a = index_of(t, k);
        assert(a != i);
        assert(t[a] == s[a]);
        lemma_entry_at(s, a);
    }
    assert(recency_map(t, used.update(i, stamp)) =~= recency_map(s, used).insert(e.key@, stamp));
}

proof fn lemma_recency_push(s: Seq<Entry>, used: Seq<u64>, e: Entry, stamp: u64)
    requires
        keys_unique(s),
        used.len() == s.len(),
        !has_key(s, e.key@),
    ensures
        recency_map(s.push(e), used.push(stamp)) == recency_map(s, used).insert(e.key@, stamp),
{
    let t = s.push(e);
    lemma_push_entry(s, e);
    lemma_entry_at(t, s.len() as int);
    assert forall|k: (Seq<char>, Seq<char>)| #[trigger]
        recency_map(t, used.push(stamp)).contains_key(k) == recency_map(s, used).insert(
            e.key@,
            stamp,
        ).contains_key(k) by {
        assert(entries_map(t).contains_key(k) == entries_map(s).insert(
            e.key@,
            (e.value@, e.expires_at),
        ).contains_key(k));
    }
    assert forall|k: (Seq<char>, Seq<char>)| #[trigger]
        recency_map(t, used.push(stamp)).contains_key(k) && k != e.key@ implies recency_map(
        t,
        used.push(stamp),
    )[k] == recency_map(s, used)[k] by {
        let j = index_of(s, k);
        lemma_entry_at(s, j);
        assert(t[j] == s[j]);
        lemma_entry_at(t, j);
    }
    assert(recency_map(t, used.push(stamp)) =~= recency_map(s, used).insert(e.key@, stamp));
}

/// The cache store. Entries live for a fixed time to live; when a new key
/// would exceed the capacity, the least recently used entry is evicted.
pub struct MetricsCache {
    entries: Vec<Entry>,
    last_used: Vec<u64>,
    ttl_secs: u64,
    max_capacity: u64,
    uses: u64,
}

impl MetricsCache {
    /// Key to cached metrics and expiry time.
    pub closed spec fn view(&self) -> Map<(Seq<char>, Seq<char>), CachedView> {
        entries_map(self.entries@)
    }

    pub closed spec fn ttl(&self) -> u64 {
        self.ttl_secs
    }

    pub closed spec fn capacity(&self) -> u64 {
        self.max_capacity
    }

    /// The number of entries held.
    pub closed spec fn size(&self) -> nat {
        self.entries@.len()
    }

    /// Key to the time of its last use, on a counter of uses: a larger
    /// value is a more recent use.
    pub closed spec fn recency(&self) -> Map<(Seq<char>, Seq<char>), u64> {
        recency_map(self.entries@, self.last_used@)
    }

    /// No entry held has expired by `now`.
    pub closed spec fn all_live(&self, now: u64) -> bool {
        forall|i: int| 0 <= i < self.entries@.len() ==> now < (#[trigger] self.entries@[i]).expires_at
    }

    pub closed spec fn wf(&self) -> bool {
        &&& keys_unique(self.entries@)
        &&& self.last_used@.len() == self.entries@.len()
        &&& self.entries@.len() <= self.max_capacity
        &&& forall|j: int| 0 <= j < self.last_used@.len() ==> #[trigger] self.last_used@[j] <= self.uses
    }

    /// The keys with a recency are the keys held.
    pub proof fn lemma_recency_keys(&self)
        ensures
            self.recency().dom() == self@.dom(),
    {
        assert(self.recency().dom() =~= self@.dom());
    }

    /// An empty store whose entries live `ttl_secs` seconds and which holds
    /// at most `max_capacity` of them.
    pub fn new(ttl_secs: u64, max_capacity: u64) -> (c: MetricsCache)
        ensures
            c.wf(),
            c@ == Map::<(Seq<char>, Seq<char>), CachedView>::empty(),
            c.ttl() == ttl_secs,
            c.capacity() == max_capacity,
            c.size() == 0,
    {
        let c = MetricsCache {
            entries: Vec::new(),
            last_used: Vec::new(),
            ttl_secs,
            max_capacity,
            uses: 0,
        };
        assert(c@ =~= Map::<(Seq<char>, Seq<char>), CachedView>::empty());
        c
    }

    fn find(&self, key: &CacheKey) -> (r: Option<usize>)
        requires
            self.wf(),
        ensures
            match r {
                Some(i) => i < self.entries@.len() && self.entries@[i as int].key@ == key@,
                None => !has_key(self.entries@, key@),
            },
    {
        let mut i: usize = 0;
        while i < self.entries.len()
            invariant
                i <= self.entries@.len(),
                forall|j: int| 0 <= j < i ==> (#[trigger] self.entries@[j]).key@ != key@,
            decreases self.entries@.len() - i,
        {
            if self.entries[i].key.same_as(key) {
                return Some(i);
            }
            i += 1;
        }
        None
    }

    fn next_use(&mut self) -> (stamp: u64)
        ensures
            final(self).entries == old(self).entries,
            final(self).last_used == old(self).last_used,
            final(self).ttl_secs == old(self).ttl_secs,
            final(self).max_capacity == old(self).max_capacity,
            stamp == final(self).uses,
            final(self).uses >= old(self).uses,
    {
        if self.uses < u64::MAX {
            self.uses = self.uses + 1;
        }
        self.uses
    }

    /// The metrics stored for `key`, unless they expired by `now`. A hit
    /// marks the entry as recently used.
    pub fn get(&mut self, key: &CacheKey, now: u64) -> (r: Option<RepoMetricsResponse>)
        requires
            old(self).wf(),
        ensures
            final(self).wf(),
            final(self)@ == old(self)@,
            final(self).ttl() == old(self).ttl(),
            final(self).capacity() == old(self).capacity(),
            final(self).size() == old(self).size(),
            view_of_option(r) == lookup(old(self)@, key@, now),
            r is Some ==> final(self).recency() == old(self).recency().insert(
                key@,
                final(self).recency()[key@],
            ),
            r is Some ==> forall|k: (Seq<char>, Seq<char>)| #[trigger]
                old(self).recency().contains_key(k) ==> old(self).recency()[k]
                    <= final(self).recency()[key@],
            r is None ==> final(self).recency() == old(self).recency(),
    {
        match self.find(key) {
            Some(i) => {
                proof {
                    lemma_entry_at(self.entries@, i as int);
                }
                if now < self.entries[i].expires_at {
                    let stamp = self.next_use();
                    proof {
                        lemma_recency_set(self.entries@, self.last_used@, i as int, stamp);
                        assert forall|k: (Seq<char>, Seq<char>)| #[trigger]
                            old(self).recency().contains_key(k) implies old(self).recency()[k]
                            <= stamp by {
                            let j = index_of(self.entries@, k);
                            lemma_entry_at(self.entries@, j);
                        }
                    }
                    self.last_used.set(i, stamp);
                    Some(self.entries[i].value.copied())
                } else {
                    None
                }
            },
            None => None,
        }
    }

    /// The index of a least recently used entry.
    fn least_recent(&self) -> (v: usize)
        requires
            self.wf(),
            self.entries@.len() > 0,
        ensures
            v < self.entries@.len(),
            forall|j: int| 0 <= j < self.last_used@.len() ==> self.last_used@[v as int] <= #[trigger] self.last_used@[j],
    {
        let mut v: usize = 0;
        let mut i: usize = 1;
        while i < self.last_used.len()
            invariant
                self.wf(),
                self.entries@.len() > 0,
                v < i <= self.last_used@.len(),
                forall|j: int| 0 <= j < i ==> self.last_used@[v as int] <= #[trigger] self.last_used@[j],
            decreases self.last_used@.len() - i,
        {
            if self.last_used[i] < self.last_used[v] {
                v = i;
            }
            i += 1;
        }
        v
    }

    /// Stores `value` for `key` at `now`, to expire one time to live later,
    /// in place of any entry for `key`. Expired entries are swept first and
    /// their keys returned. A new key that finds the store full evicts the
    /// least recently used entry, which is not reported; a store of capacity
    /// zero keeps nothing.
    pub fn insert(&mut self, key: CacheKey, value: RepoMetricsResponse, now: u64) -> (expired:
        Vec<CacheKey>)
        requires
            old(self).wf(),
        ensures
            final(self).wf(),
            final(self).ttl() == old(self).ttl(),
            final(self).capacity() == old(self).capacity(),
            reports_expired(expired@, old(self)@, now),
            old(self).capacity() > 0 ==> final(self)@.contains_key(key@) && final(self)@[key@] == (
            value@, expiry(now, old(self).ttl())),
            old(self).capacity() > 0 ==> forall|k: (Seq<char>, Seq<char>)| #[trigger]
                final(self)@.contains_key(k) ==> final(self).recency()[k]
                    <= final(self).recency()[key@],
            old(self).capacity() == 0 ==> !final(self)@.contains_key(key@),
            forall|k: (Seq<char>, Seq<char>)|
                k != key@ && #[trigger] final(self)@.contains_key(k) ==> old(self)@.contains_key(k)
                    && now < old(self)@[k].1 && final(self)@[k] == old(self)@[k]
                    && final(self).recency()[k] == old(self).recency()[k],
            exists|victim: (Seq<char>, Seq<char>)| #[trigger]
                keeps_live_except(old(self)@, final(self)@, key@, victim, now),
            forall|k: (Seq<char>, Seq<char>)|
                k != key@ && #[trigger] old(self)@.contains_key(k) && now < old(self)@[k].1
                    && !final(self)@.contains_key(k) ==> least_recent_live(
                    old(self)@,
                    old(self).recency(),
                    k,
                    now,
                ),
            (exists|k: (Seq<char>, Seq<char>)|
                k != key@ && #[trigger] old(self)@.contains_key(k) && now < old(self)@[k].1
                    && !final(self)@.contains_key(k))
                ==> final(self).size() == final(self).capacity(),
    {
        let expired = self.evict_expired(now);
        let ghost swept = self@;
        let ghost swept_recency = self.recency();
        let expires_at = now.saturating_add(self.ttl_secs);
        let stamp = self.next_use();
        proof {
            assert forall|k: (Seq<char>, Seq<char>)| #[trigger] swept.contains_key(k) implies
                swept_recency[k] <= stamp by {
                let j = index_of(self.entries@, k);
                lemma_entry_at(self.entries@, j);
            }
        }
        let ghost mut victim = key@;
        match self.find(&key) {
            Some(i) => {
                let e = Entry { key, value, expires_at };
                proof {
                    lemma_replace_entry(self.entries@, i as int, e);
                    lemma_recency_replace(self.entries@, self.last_used@, i as int, e, stamp);
                }
                self.entries.set(i, e);
                self.last_used.set(i, stamp);
            },
            None => {
                if self.max_capacity > 0 {
                    if self.entries.len() as u64 >= self.max_capacity {
                        let v = self.least_recent();
                        proof {
                            let entries = self.entries@;
                            victim = entries[v as int].key@;
                            lemma_remove_entry(entries, v as int);
                            lemma_recency_remove(entries, self.last_used@, v as int);
                            lemma_entry_at(entries, v as int);
                            assert forall|k: (Seq<char>, Seq<char>)| #[trigger]
                                old(self)@.contains_key(k) && now < old(self)@[k].1 implies old(
                                self,
                            ).recency()[victim] <= old(self).recency()[k] by {
                                assert(swept.contains_key(k));
                                let j = index_of(entries, k);
                                lemma_entry_at(entries, j);
                            }
                            assert(least_recent_live(old(self)@, old(self).recency(), victim, now));
                        }
                        self.entries.remove(v);
                        self.last_used.remove(v);
                    }
                    let e = Entry { key, value, expires_at };
                    proof {
                        assert(!self@.contains_key(e.key@));
                        lemma_push_entry(self.entries@, e);
                        lemma_recency_push(self.entries@, self.last_used@, e, stamp);
                    }
                    self.entries.push(e);
                    self.last_used.push(stamp);
                }
            },
        }
        proof {
            assert forall|k: (Seq<char>, Seq<char>)|
                k != key@ && #[trigger] self@.contains_key(k) implies old(self)@.contains_key(k)
                    && now < old(self)@[k].1 && self@[k] == old(self)@[k] && self.recency()[k]
                    == old(self).recency()[k] by {
                assert(swept.contains_key(k));
            }
            assert forall|k: (Seq<char>, Seq<char>)|
                k != key@ && k != victim && #[trigger] old(self)@.contains_key(k) && now
                < old(self)@[k].1 implies self@.contains_key(k) by {
                assert(swept.contains_key(k));
            }
            assert(keeps_live_except(old(self)@, self@, key@, victim, now));
            if self.max_capacity > 0 {
                assert forall|k: (Seq<char>, Seq<char>)| #[trigger] self@.contains_key(k) implies
                    self.recency()[k] <= self.recency()[key@] by {
                    if k != key@ {
                        assert(swept.contains_key(k));
                    }
                }
            }
        }
        expired
    }

    /// Completes a fetch of `key`'s records made at `now` (Unix seconds) with
    /// the store's clock at `clock`. On success the metrics are computed,
    /// stored and returned, with the keys that expired from the store; on
    /// failure nothing is stored and the error is returned.
    pub fn complete_fetch(
        &mut self,
        key: CacheKey,
        fetched: Result<Vec<GitHubPR>, UpstreamError>,
        days_to_display: i64,
        window_size: i64,
        now: i64,
        clock: u64,
    ) -> (r: (Result<RepoMetricsResponse, UpstreamError>, Vec<CacheKey>))
        requires
            old(self).wf(),
            fetched matches Ok(prs) ==> metrics_inputs_ok(
                prs@.len(),
                days_to_display as int,
                window_size as int,
                now as int,
            ),
        ensures
            final(self).wf(),
            final(self).ttl() == old(self).ttl(),
            final(self).capacity() == old(self).capacity(),
            match fetched {
                Err(e) => {
                    &&& r.0 == Err::<RepoMetricsResponse, UpstreamError>(e)
                    &&& r.1@.len() == 0
                    &&& final(self)@ == old(self)@
                },
                Ok(prs) => {
                    &&& r.0 is Ok
                    &&& series_matches(
                        r.0->Ok_0.time_series@,
                        prs@,
                        now as int,
                        days_to_display as int,
                        window_size as int,
                    )
                    &&& r.0->Ok_0.summary == summary_of(r.0->Ok_0.time_series@)
                    &&& reports_expired(r.1@, old(self)@, clock)
                    &&& stored_after(
                        old(self)@,
                        old(self).recency(),
                        final(self)@,
                        final(self).recency(),
                        key@,
                        r.0->Ok_0@,
                        clock,
                        old(self).ttl(),
                        old(self).capacity(),
                        final(self).size(),
                    )
                },
            },
    {
        match fetched {
            Err(e) => (Err(e), Vec::new()),
            Ok(prs) => {
                let metrics = calculate_metrics(prs.as_slice(), days_to_display, window_size, now);
                let expired = self.insert(key, metrics.copied(), clock);
                (Ok(metrics), expired)
            },
        }
    }

    /// Removes every entry that expired by `now` and returns their keys.
    pub fn evict_expired(&mut self, now: u64) -> (expired: Vec<CacheKey>)
        requires
            old(self).wf(),
        ensures
            final(self).wf(),
            final(self).ttl() == old(self).ttl(),
            final(self).capacity() == old(self).capacity(),
            reports_expired(expired@, old(self)@, now),
            forall|k: (Seq<char>, Seq<char>)|
                #[trigger] final(self)@.contains_key(k) == (old(self)@.contains_key(k) && now
                    < old(self)@[k].1),
            forall|k: (Seq<char>, Seq<char>)| #[trigger]
                final(self)@.contains_key(k) ==> final(self)@[k] == old(self)@[k],
            final(self).all_live(now),
            forall|k: (Seq<char>, Seq<char>)| #[trigger]
                final(self)@.contains_key(k) ==> final(self).recency()[k] == old(self).recency()[k],
    {
        let ghost initial = self@;
        let ghost initial_recency = self.recency();
        let mut expired: Vec<CacheKey> = Vec::new();
        let mut i: usize = 0;
        while i < self.entries.len()
            invariant
                self.wf(),
                self.ttl_secs == old(self).ttl_secs,
                self.max_capacity == old(self).max_capacity,
                initial == old(self)@,
                initial_recency == old(self).recency(),
                forall|k: (Seq<char>, Seq<char>)| #[trigger]
                    self@.contains_key(k) ==> self.recency()[k] == initial_recency[k],
                i <= self.entries@.len(),
                keys_distinct(expired@),
                forall|j: int| 0 <= j < i ==> now < (#[trigger] self.entries@[j]).expires_at,
                forall|k: (Seq<char>, Seq<char>)| #[trigger]
                    self@.contains_key(k) ==> initial.contains_key(k) && self@[k] == initial[k],
                forall|k: (Seq<char>, Seq<char>)| #[trigger]
                    initial.contains_key(k) && !self@.contains_key(k) ==> initial[k].1 <= now,
                forall|k: (Seq<char>, Seq<char>)|
                    (exists|j: int| 0 <= j < expired@.len() && #[trigger] expired@[j]@ == k) <==> (
                    #[trigger] initial.contains_key(k) && !self@.contains_key(k)),
            decreases self.entries@.len() - i,
        {
            if self.entries[i].expires_at <= now {
                let ghost before = self.entries@;
                let ghost before_expired = expired@;
                let ghost before_map = self@;
                let ghost before_recency = self.recency();
                let ghost before_used = self.last_used@;
                proof {
                    lemma_entry_at(before, i as int);
                    lemma_remove_entry(before, i as int);
                    lemma_recency_remove(before, before_used, i as int);
                }
                let gone = self.entries.remove(i);
                self.last_used.remove(i);
                expired.push(gone.key);
                proof {
                    let k0 = gone.key@;
                    assert(self.entries@ == before.remove(i as int));
                    assert(k0 == before[i as int].key@);
                    assert(self@ == entries_map(before).remove(k0));
                    assert(entries_map(before).contains_key(k0));
                    assert(entries_map(before)[k0].1 <= now);
                    assert(expired@ == before_expired.push(gone.key));
                    assert forall|j: int| 0 <= j < before_expired.len() implies (
                    #[trigger] before_expired[j])@ != k0 by {
                        let kj = before_expired[j]@;
                        assert(exists|m: int|
                            0 <= m < before_expired.len() && #[trigger] before_expired[m]@ == kj);
                        assert(!before_map.contains_key(kj));
                    }
                    assert forall|a: int, b: int|
                        0 <= a < expired@.len() && 0 <= b < expired@.len() && a != b implies (
                    #[trigger] expired@[a])@ != (#[trigger] expired@[b])@ by {
                        if a < before_expired.len() && b < before_expired.len() {
                            assert(expired@[a] == before_expired[a]);
                            assert(expired@[b] == before_expired[b]);
                        } else if a < before_expired.len() {
                            assert(expired@[a] == before_expired[a]);
                        } else {
                            assert(expired@[b] == before_expired[b]);
                        }
                    }
                    assert forall|k: (Seq<char>, Seq<char>)| #[trigger] self@.contains_key(k) implies
                        initial.contains_key(k) && self@[k] == initial[k] by {
                        assert(before_map.contains_key(k));
                        assert(before_map[k] == initial[k]);
                    }
                    assert(self.recency() == before_recency.remove(k0));
                    assert forall|k: (Seq<char>, Seq<char>)| #[trigger] self@.contains_key(k) implies
                        self.recency()[k] == initial_recency[k] by {
                        assert(before_map.contains_key(k));
                    }
                    assert forall|k: (Seq<char>, Seq<char>)| #[trigger] initial.contains_key(k)
                        && !self@.contains_key(k) implies initial[k].1 <= now by {
                        if k != k0 {
                            assert(!before_map.contains_key(k));
                        } else {
                            assert(before_map[k] == initial[k]);
                        }
                    }
                    assert forall|k: (Seq<char>, Seq<char>)|
                        (exists|j: int| 0 <= j < expired@.len() && #[trigger] expired@[j]@ == k)
                            <==> (#[trigger] initial.contains_key(k) && !self@.contains_key(k)) by {
                        assert(self@.contains_key(k) == (before_map.contains_key(k) && k != k0));
                        if before_map.contains_key(k) {
                            assert(initial.contains_key(k));
                        }
                        if exists|j: int| 0 <= j < expired@.len() && #[trigger] expired@[j]@ == k {
                            let j = choose|j: int| 0 <= j < expired@.len() && #[trigger] expired@[j]@ == k;
                            if j < before_expired.len() {
                                assert(before_expired[j] == expired@[j]);
                            }
                        }
                        if initial.contains_key(k) && !self@.contains_key(k) && k != k0 {
                            let j = choose|j: int| 0 <= j < before_expired.len() && #[trigger] before_expired[j]@ == k;
                            assert(expired@[j] == before_expired[j]);
                        }
                        if k == k0 {
                            assert(expired@[before_expired.len() as int]@ == k);
                        }
                    }
                    assert forall|j: int| 0 <= j < i implies now < (#[trigger] self.entries@[j]).expires_at by {
                        assert(self.entries@[j] == before[j]);
                    }
                }
            } else {
                i += 1;
            }
        }
        proof {
            assert forall|k: (Seq<char>, Seq<char>)| #[trigger] self@.contains_key(k) implies now
                < self@[k].1 by {
                let j = index_of(self.entries@, k);
                lemma_entry_at(self.entries@, j);
            }
            assert forall|k: (Seq<char>, Seq<char>)|
                (exists|j: int| 0 <= j < expired@.len() && #[trigger] expired@[j]@ == k) <==> (
                #[trigger] initial.contains_key(k) && initial[k].1 <= now) by {
                if initial.contains_key(k) && self@.contains_key(k) {
                    assert(now < self@[k].1);
                }
            }
        }
        expired
    }
}

} // verus!
