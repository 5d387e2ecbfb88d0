//! Plan quota: usage windows, model-scoped weekly limits, reset times, and
//! the freshness rules for the cached copies of the quota.
//!
//! Percentages are carried as a type parameter `P`: the selection rules here
//! never look at their value.
use vstd::prelude::*;
use crate::text::{chars_of, is_white_space, same_text, string_from_chars, trim, trim_chars};

verus! {

/// Seconds a cached quota stays usable by the status-line hook.
pub const CACHE_FRESH_SECS: u64 = 600;

/// Seconds between two attempts of the hook to fetch the quota itself.
pub const FETCH_RETRY_SECS: u64 = 120;

/// A single rate-limit window: how much is used, and when it resets.
pub struct QuotaWindow<P> {
    pub utilization: P,
    pub resets_at: Option<String>,
}

/// A model-scoped weekly limit: its label, its used share and its reset time.
pub struct ModelLimit<P> {
    pub label: String,
    pub percent: P,
    pub resets_at: Option<String>,
}

/// A reset time as found in a payload: absent, `null`, a string, a whole
/// number of seconds since the Unix epoch, or anything else.
pub enum ResetValue {
    Missing,
    Null,
    Text(String),
    Seconds(i64),
    Other,
}

/// The RFC 3339 text of a Unix time in UTC, as the date library writes it;
/// `None` outside the dates it represents.
pub uninterp spec fn epoch_rfc3339(secs: int) -> Option<Seq<char>>;

/// `DateTime::from_timestamp(secs, 0)` then `to_rfc3339()`: the date library's
/// UTC date-time text for a Unix time, `None` when it is out of range. The
/// calendar arithmetic and text layout are left to the library.
#[verifier::external_body]
fn rfc3339_of_epoch(secs: i64) -> (r: Option<String>)
    ensures
        r matches Some(t) ==> epoch_rfc3339(secs as int) == Some(t@),
        r is None ==> epoch_rfc3339(secs as int) is None,
{
    chrono::DateTime::from_timestamp(secs, 0).map(|dt| dt.to_rfc3339())
}

/// A reset time normalised to RFC 3339: a string is kept as it is, epoch
/// seconds are converted, anything else has no reset time.
pub open spec fn reset_text(v: ResetValue) -> Option<Seq<char>> {
    match v {
        ResetValue::Text(s) => Some(s@),
        ResetValue::Seconds(n) => epoch_rfc3339(n as int),
        _ => None,
    }
}

pub open spec fn opt_text(o: Option<String>) -> Option<Seq<char>> {
    match o {
        Some(s) => Some(s@),
        None => None,
    }
}

/// Normalises a reset time to RFC 3339 (see [`reset_text`]).
pub fn normalize_reset(v: &ResetValue) -> (r: Option<String>)
    ensures
        opt_text(r) == reset_text(*v),
{
    match v {
        ResetValue::Text(s) => Some(s.clone()),
        ResetValue::Seconds(n) => rfc3339_of_epoch(*n),
        _ => None,
    }
}

/// One raw entry of the `limits` list, as far as the selection reads it.
pub struct LimitEntry<P> {
    pub kind: Option<String>,
    /// `scope.model.display_name`, when it is a string.
    pub label: Option<String>,
    pub percent: Option<P>,
    pub is_active: Option<bool>,
    pub resets_at: ResetValue,
}

/// The model limit an entry stands for: a `weekly_scoped` entry with a
/// non-empty model label and a percentage. Whether it is active is not looked at.
pub open spec fn limit_of<P>(e: LimitEntry<P>) -> Option<(Seq<char>, P, Option<Seq<char>>)> {
    if e.kind matches Some(k) && k@ == "weekly_scoped"@ {
        match (e.label, e.percent) {
            (Some(l), Some(p)) => if l@.len() > 0 {
                Some((l@, p, reset_text(e.resets_at)))
            } else {
                None
            },
            _ => None,
        }
    } else {
        None
    }
}

/// The model limits of the entries, in order.
pub open spec fn selected_limits<P>(es: Seq<LimitEntry<P>>) -> Seq<(Seq<char>, P, Option<Seq<char>>)>
    decreases es.len(),
{
    if es.len() == 0 {
        Seq::empty()
    } else {
        match limit_of(es.last()) {
            Some(m) => selected_limits(es.drop_last()).push(m),
            None => selected_limits(es.drop_last()),
        }
    }
}

pub open spec fn limit_view<P>(m: ModelLimit<P>) -> (Seq<char>, P, Option<Seq<char>>) {
    (m.label@, m.percent, opt_text(m.resets_at))
}

/// At most this many model limits are shown, to keep the status line short.
pub const MAX_MODEL_LIMITS: usize = 2;

proof fn lemma_selected_prefix<P>(es: Seq<LimitEntry<P>>, i: int)
    requires
        0 <= i < es.len(),
    ensures
        selected_limits(es.take(i + 1)) == (match limit_of(es[i]) {
            Some(m) => selected_limits(es.take(i)).push(m),
            None => selected_limits(es.take(i)),
        }),
{
    assert(es.take(i + 1).drop_last() =~= es.take(i));
}

proof fn lemma_selected_grows<P>(es: Seq<LimitEntry<P>>, i: int, j: int)
    requires
        0 <= i <= j <= es.len(),
    ensures
        selected_limits(es.take(i)).len() <= selected_limits(es.take(j)).len(),
        forall|k: int|
            0 <= k < selected_limits(es.take(i)).len() ==> #[trigger] selected_limits(es.take(j))[k]
                == selected_limits(es.take(i))[k],
    decreases j - i,
{
    if i < j {
        lemma_selected_grows(es, i, j - 1);
        lemma_selected_prefix(es, j - 1);
    }
}

/// The model-scoped weekly limits among the raw entries, in order, at most two.
/// Malformed entries are skipped, never an error; `is_active` is ignored, since
/// the upstream flag flips while the percentage stays meaningful.
pub fn model_limits_from<P: Copy>(entries: &[LimitEntry<P>]) -> (r: Vec<ModelLimit<P>>)
    ensures
        r@.len() == (if selected_limits(entries@).len() < 2 {
            selected_limits(entries@).len()
        } else {
            2
        }),
        forall|i: int| 0 <= i < r@.len() ==> limit_view(#[trigger] r@[i]) == selected_limits(entries@)[i],
{
    let mut out: Vec<ModelLimit<P>> = Vec::new();
    let mut i: usize = 0;
    assert(entries@.take(entries.len() as int) =~= entries@);
    while i < entries.len() && out.len() < MAX_MODEL_LIMITS
        invariant
            i <= entries.len(),
            out@.len() == selected_limits(entries@.take(i as int)).len(),
            out@.len() <= 2,
            forall|k: int|
                0 <= k < out@.len() ==> limit_view(#[trigger] out@[k]) == selected_limits(
                    entries@.take(i as int),
                )[k],
        decreases entries.len() - i,
    {
        let e = &entries[i];
        proof {
            lemma_selected_prefix(entries@, i as int);
        }
        let weekly = match &e.kind {
            Some(k) => same_text(k.as_str(), "weekly_scoped"),
            None => false,
        };
        if weekly {
            match (&e.label, &e.percent) {
                (Some(l), Some(p)) => {
                    if l.as_str().unicode_len() > 0 {
                        let m = ModelLimit { label: l.clone(), percent: *p, resets_at: normalize_reset(&e.resets_at) };
                        out.push(m);
                    }
                },
                _ => {},
            }
        }
        i += 1;
    }
    proof {
        lemma_selected_grows(entries@, i as int, entries.len() as int);
    }
    out
}

/// Entries that differ only in their `is_active` flag select the same limits.
pub proof fn lemma_is_active_ignored<P>(es: Seq<LimitEntry<P>>, fs: Seq<LimitEntry<P>>)
    requires
        es.len() == fs.len(),
        forall|i: int|
            0 <= i < es.len() ==> {
                &&& (#[trigger] es[i]).kind == fs[i].kind
                &&& es[i].label == fs[i].label
                &&& es[i].percent == fs[i].percent
                &&& es[i].resets_at == fs[i].resets_at
            },
    ensures
        selected_limits(es) == selected_limits(fs),
    decreases es.len(),
{
    if es.len() > 0 {
        lemma_is_active_ignored(es.drop_last(), fs.drop_last());
        assert(limit_of(es.last()) == limit_of(fs.last()));
    }
}

/// The first of the candidate percentages that is present.
pub open spec fn first_present<P>(ps: Seq<Option<P>>) -> Option<P>
    decreases ps.len(),
{
    if ps.len() == 0 {
        None
    } else if ps[0] is Some {
        ps[0]
    } else {
        first_present(ps.drop_first())
    }
}

/// The first candidate reset time that is present and not `null`.
pub open spec fn first_reset(rs: Seq<ResetValue>) -> Option<ResetValue>
    decreases rs.len(),
{
    if rs.len() == 0 {
        None
    } else if !(rs[0] is Missing) && !(rs[0] is Null) {
        Some(rs[0])
    } else {
        first_reset(rs.drop_first())
    }
}

/// The window read from a payload: the first percentage found under the known
/// spellings of its key, and the reset time under the first of the known
/// reset keys that holds a non-null value (normalised; a value that is not a
/// time gives no reset time, later keys are not consulted).
pub open spec fn window_of<P>(ps: Seq<Option<P>>, rs: Seq<ResetValue>) -> Option<(P, Option<Seq<char>>)> {
    match first_present(ps) {
        Some(u) => Some(
            (
                u,
                match first_reset(rs) {
                    Some(v) => reset_text(v),
                    None => None,
                },
            ),
        ),
        None => None,
    }
}

pub open spec fn window_view<P>(w: QuotaWindow<P>) -> (P, Option<Seq<char>>) {
    (w.utilization, opt_text(w.resets_at))
}

fn first_present_exec<P: Copy>(ps: &[Option<P>]) -> (r: Option<P>)
    ensures
        r == first_present(ps@),
{
    let mut i: usize = 0;
    assert(ps@.subrange(0, ps@.len() as int) =~= ps@);
    while i < ps.len()
        invariant
            i <= ps.len(),
            first_present(ps@) == first_present(ps@.subrange(i as int, ps@.len() as int)),
        decreases ps.len() - i,
    {
        let ghost rest = ps@.subrange(i as int, ps@.len() as int);
        assert(rest.drop_first() =~= ps@.subrange(i + 1, ps@.len() as int));
        assert(rest[0] == ps@[i as int]);
        if let Some(p) = &ps[i] {
            return Some(*p);
        }
        i += 1;
    }
    assert(ps@.subrange(i as int, ps@.len() as int).len() == 0);
    None
}

/// The fields of a window object of a status-line payload that the window is
/// read from: the percentage under each known spelling of its key, and the
/// reset time under each known reset key (`resetsAt` in camel case last).
pub struct WindowFields<P> {
    pub used_percentage: Option<P>,
    pub utilization: Option<P>,
    pub percent_used: Option<P>,
    pub percentage: Option<P>,
    pub resets_at: ResetValue,
    pub reset_at: ResetValue,
    pub resets_at_camel: ResetValue,
}

/// The percentage candidates of a window object, in order of preference.
pub open spec fn window_percents<P>(v: WindowFields<P>) -> Seq<Option<P>> {
    seq![v.used_percentage, v.utilization, v.percent_used, v.percentage]
}

/// The reset-time candidates of a window object, in order of preference.
pub open spec fn window_resets<P>(v: WindowFields<P>) -> Seq<ResetValue> {
    seq![v.resets_at, v.reset_at, v.resets_at_camel]
}

fn is_set(r: &ResetValue) -> (b: bool)
    ensures
        b == (!(*r is Missing) && !(*r is Null)),
{
    match r {
        ResetValue::Missing => false,
        ResetValue::Null => false,
        _ => true,
    }
}

/// The window read from a payload's window object (see [`window_of`]):
/// the percentage under the first known key that holds a number, and the
/// reset time under the first reset key that holds a non-null value.
pub fn win_from<P: Copy>(v: &WindowFields<P>) -> (r: Option<QuotaWindow<P>>)
    ensures
        r matches Some(w) ==> window_of(window_percents(*v), window_resets(*v)) == Some(window_view(w)),
        r is None ==> window_of(window_percents(*v), window_resets(*v)) is None,
{
    let ps: Vec<Option<P>> = vec![v.used_percentage, v.utilization, v.percent_used, v.percentage];
    assert(ps@ =~= window_percents(*v));
    let u = match first_present_exec(ps.as_slice()) {
        Some(u) => u,
        None => {
            return None;
        },
    };
    let ghost rs = window_resets(*v);
    proof {
        assert(rs.drop_first() =~= seq![v.reset_at, v.resets_at_camel]);
        assert(rs.drop_first().drop_first() =~= seq![v.resets_at_camel]);
        assert(rs.drop_first().drop_first().drop_first() =~= Seq::<ResetValue>::empty());
        reveal_with_fuel(first_reset, 4);
    }
    let resets_at = if is_set(&v.resets_at) {
        normalize_reset(&v.resets_at)
    } else if is_set(&v.reset_at) {
        normalize_reset(&v.reset_at)
    } else if is_set(&v.resets_at_camel) {
        normalize_reset(&v.resets_at_camel)
    } else {
        None
    };
    Some(QuotaWindow { utilization: u, resets_at })
}

/// The usage endpoint, reached with the account's OAuth token.
pub struct OAuthProvider;

/// How the usage endpoint answered, as far as the fetch distinguishes.
#[derive(Clone, Copy, Debug, PartialEq, Eq)]
pub enum FetchStatus {
    /// 2xx: the body holds the usage.
    Success,
    /// 429: rate limited; back off.
    RateLimited,
    /// 401: the token is no longer accepted.
    Unauthorized,
    /// Any other status.
    Failed,
}

/// Classifies an HTTP status code of the usage endpoint: 429 and 401 first,
/// then success for 200..=299, failure otherwise.
pub fn classify_status(code: u16) -> (r: FetchStatus)
    ensures
        r == (if code == 429 {
            FetchStatus::RateLimited
        } else if code == 401 {
            FetchStatus::Unauthorized
        } else if 200 <= code <= 299 {
            FetchStatus::Success
        } else {
            FetchStatus::Failed
        }),
{
    if code == 429 {
        FetchStatus::RateLimited
    } else if code == 401 {
        FetchStatus::Unauthorized
    } else if 200 <= code && code <= 299 {
        FetchStatus::Success
    } else {
        FetchStatus::Failed
    }
}

/// The message a fetch reports for a status that is not a success: 429 and 401
/// have their own advice (a 401 asks to open the coding assistant, whose name
/// is `assistant`, to refresh the token), any other status is named
/// (`status_text` is its canonical text, such as `500 Internal Server Error`).
pub open spec fn fetch_error_spec(status: FetchStatus, status_text: Seq<char>, assistant: Seq<char>) -> Option<
    Seq<char>,
> {
    match status {
        FetchStatus::Success => None,
        FetchStatus::RateLimited => Some("rate limited (429) — backing off"@),
        FetchStatus::Unauthorized => Some("unauthorized (401) — token expired? open "@ + assistant + " to refresh"@),
        FetchStatus::Failed => Some("usage endpoint returned "@ + status_text),
    }
}

/// The error message of a fetch that got `status` (see [`fetch_error_spec`]).
pub fn fetch_error_text(status: FetchStatus, status_text: &str, assistant: &str) -> (r: Option<String>)
    ensures
        opt_text(r) == fetch_error_spec(status, status_text@, assistant@),
{
    match status {
        FetchStatus::Success => None,
        FetchStatus::RateLimited => Some(String::from_str("rate limited (429) — backing off")),
        FetchStatus::Unauthorized => {
            let mut m = String::from_str("unauthorized (401) — token expired? open ");
            crate::text::append_str(&mut m, assistant);
            crate::text::append_str(&mut m, " to refresh");
            Some(m)
        },
        FetchStatus::Failed => {
            let mut m = String::from_str("usage endpoint returned ");
            crate::text::append_str(&mut m, status_text);
            Some(m)
        },
    }
}

/// The count of 429 answers in a row after a poll whose fetch ended with
/// `status` (`None`: no answer, or the quota came from elsewhere): one more
/// on a 429, back to zero otherwise.
pub fn next_rate_limited(count: u32, status: Option<FetchStatus>) -> (r: u32)
    ensures
        r == (if status == Some(FetchStatus::RateLimited) {
            if count == u32::MAX {
                count as int
            } else {
                count + 1
            }
        } else {
            0
        }),
{
    match status {
        Some(FetchStatus::RateLimited) => {
            if count == u32::MAX {
                count
            } else {
                count + 1
            }
        },
        _ => 0,
    }
}

/// Where the quota comes from on a poll: the status-line copy when the user
/// opted in and it is fresh, else (`None`) the usage endpoint.
pub fn quota_source<Q>(optin: bool, fresh: Option<Q>) -> (r: Option<Q>)
    ensures
        r == (if optin {
            fresh
        } else {
            None
        }),
{
    if optin {
        fresh
    } else {
        None
    }
}

/// The quota shown after a poll and its error: a fetched quota replaces the
/// previous one; on an error the previous quota is kept so the display does
/// not go blank, and the error is reported.
pub fn after_fetch<Q>(prev: Q, fetched: Result<Q, String>) -> (r: (Q, Option<String>))
    ensures
        r == (match fetched {
            Ok(q) => (q, None),
            Err(e) => (prev, Some(e)),
        }),
{
    match fetched {
        Ok(q) => (q, None),
        Err(e) => (prev, Some(e)),
    }
}

/// The longest wait between polls while the endpoint keeps answering 429.
pub const MAX_BACKOFF_SECS: u64 = 3600;

/// The ceiling of the backoff: an hour, or the poll interval when that is longer.
pub open spec fn backoff_cap(poll_secs: nat) -> nat {
    if poll_secs > MAX_BACKOFF_SECS {
        poll_secs
    } else {
        MAX_BACKOFF_SECS as nat
    }
}

/// The wait before the next poll after `n` answers of 429 in a row: the poll
/// interval, doubled for each of them, up to [`backoff_cap`].
pub open spec fn backoff_secs(poll_secs: nat, n: nat) -> nat
    decreases n,
{
    if n == 0 {
        poll_secs
    } else {
        let w = 2 * backoff_secs(poll_secs, (n - 1) as nat);
        if w > backoff_cap(poll_secs) {
            backoff_cap(poll_secs)
        } else {
            w
        }
    }
}

proof fn lemma_backoff_settles(poll_secs: nat, i: nat, n: nat)
    requires
        i <= n,
        backoff_secs(poll_secs, i) == backoff_cap(poll_secs) || backoff_secs(poll_secs, i) == 0,
    ensures
        backoff_secs(poll_secs, n) == backoff_secs(poll_secs, i),
    decreases n - i,
{
    if i < n {
        lemma_backoff_settles(poll_secs, i, (n - 1) as nat);
    }
}

/// Seconds to wait before the next poll (exponential backoff on 429, see [`backoff_secs`]).
pub fn next_wait_secs(poll_secs: u64, consecutive_429: u32) -> (r: u64)
    ensures
        r == backoff_secs(poll_secs as nat, consecutive_429 as nat),
{
    let cap = if poll_secs > MAX_BACKOFF_SECS {
        poll_secs
    } else {
        MAX_BACKOFF_SECS
    };
    let mut w = poll_secs;
    let mut i: u32 = 0;
    while i < consecutive_429 && w < cap && w > 0
        invariant
            i <= consecutive_429,
            cap == backoff_cap(poll_secs as nat),
            w == backoff_secs(poll_secs as nat, i as nat),
            w <= cap,
        decreases consecutive_429 - i,
    {
        w = if w > cap - w {
            cap
        } else {
            2 * w
        };
        i += 1;
    }
    proof {
        if i < consecutive_429 {
            lemma_backoff_settles(poll_secs as nat, i as nat, consecutive_429 as nat);
        }
    }
    w
}

/// Whether the quota cache, written `age_secs` ago, may be used when it may be
/// at most `max_age_secs` old; a limit of zero never accepts it.
pub fn cache_is_fresh(age_secs: u64, max_age_secs: u64) -> (r: bool)
    ensures
        r == (max_age_secs != 0 && age_secs <= max_age_secs),
{
    max_age_secs != 0 && age_secs <= max_age_secs
}

/// Whether a file written `age_secs` ago is recent enough for `max_age_secs`.
pub fn is_fresh(age_secs: u64, max_age_secs: u64) -> (r: bool)
    ensures
        r == (age_secs <= max_age_secs),
{
    age_secs <= max_age_secs
}

/// Whether the hook may try to fetch the quota itself, given how long ago the
/// last attempt was made (`None`: no attempt on record): not within the
/// retry interval.
pub fn self_fetch_allowed(last_attempt_age_secs: Option<u64>) -> (r: bool)
    ensures
        r == !(last_attempt_age_secs matches Some(a) && a < FETCH_RETRY_SECS),
{
    match last_attempt_age_secs {
        Some(a) => a >= FETCH_RETRY_SECS,
        None => true,
    }
}

/// The `claudeAiOauth.accessToken` string of a credentials JSON text, when the
/// text is JSON and that field is a string.
pub uninterp spec fn credentials_access_token(blob: Seq<char>) -> Option<Seq<char>>;

/// `serde_json::from_str` on the credentials text, then the string at
/// `claudeAiOauth.accessToken`; the JSON parsing is left to the parser.
#[verifier::external_body]
fn access_token_field(blob: &str) -> (r: Option<String>)
    ensures
        opt_text(r) == credentials_access_token(blob@),
{
    let v: serde_json::Value = serde_json::from_str(blob).ok()?;
    v["claudeAiOauth"]["accessToken"].as_str().map(String::from)
}

/// The OAuth access token held in a credentials text (the same JSON shape
/// whether it came from the credentials file or the macOS keychain): the
/// token field when present and non-empty.
pub fn parse_access_token(blob: &str) -> (r: Option<String>)
    ensures
        opt_text(r) == (match credentials_access_token(blob@) {
            Some(t) => if t.len() > 0 {
                Some(t)
            } else {
                None
            },
            None => None,
        }),
{
    match access_token_field(blob) {
        Some(t) => {
            if t.as_str().unicode_len() > 0 {
                Some(t)
            } else {
                None
            }
        },
        None => None,
    }
}

/// Splitting text into white-space separated words, one character at a time:
/// the words finished so far and the word still open.
pub open spec fn words_fold(s: Seq<char>) -> (Seq<Seq<char>>, Seq<char>)
    decreases s.len(),
{
    if s.len() == 0 {
        (Seq::empty(), Seq::empty())
    } else {
        let (done, open) = words_fold(s.drop_last());
        if is_white_space(s.last()) {
            if open.len() > 0 {
                (done.push(open), Seq::empty())
            } else {
                (done, Seq::empty())
            }
        } else {
            (done, open.push(s.last()))
        }
    }
}

/// The words of `s`, as `str::split_whitespace` yields them.
pub open spec fn words(s: Seq<char>) -> Seq<Seq<char>> {
    let (done, open) = words_fold(s);
    if open.len() > 0 {
        done.push(open)
    } else {
        done
    }
}

/// A word that starts with an ASCII digit.
pub open spec fn starts_with_digit(w: Seq<char>) -> bool {
    w.len() > 0 && 48 <= (w[0] as int) <= 57
}

/// The first word starting with a digit.
pub open spec fn first_numeric_word(ws: Seq<Seq<char>>) -> Option<Seq<char>>
    decreases ws.len(),
{
    if ws.len() == 0 {
        None
    } else if starts_with_digit(ws[0]) {
        Some(ws[0])
    } else {
        first_numeric_word(ws.drop_first())
    }
}

proof fn lemma_first_numeric_push(ws: Seq<Seq<char>>, w: Seq<char>)
    requires
        forall|k: int| 0 <= k < ws.len() ==> !starts_with_digit(#[trigger] ws[k]),
    ensures
        first_numeric_word(ws.push(w)) == (if starts_with_digit(w) {
            Some(w)
        } else {
            None::<Seq<char>>
        }),
        first_numeric_word(ws) is None,
    decreases ws.len(),
{
    if ws.len() > 0 {
        assert(ws.push(w).drop_first() =~= ws.drop_first().push(w));
        assert(ws.push(w)[0] == ws[0]);
        assert(!starts_with_digit(ws[0]));
        assert forall|k: int| 0 <= k < ws.drop_first().len() implies !starts_with_digit(#[trigger] ws.drop_first()[k]) by {
            assert(ws.drop_first()[k] == ws[k + 1]);
        }
        lemma_first_numeric_push(ws.drop_first(), w);
    } else {
        assert(ws.push(w)[0] == w);
        assert(ws.push(w).drop_first() =~= Seq::<Seq<char>>::empty());
        assert(first_numeric_word(Seq::<Seq<char>>::empty()) is None);
        assert(first_numeric_word(ws.push(w).drop_first()) is None);
    }
}

proof fn lemma_first_numeric_prefix(p: Seq<Seq<char>>, ws: Seq<Seq<char>>)
    requires
        p.len() <= ws.len(),
        forall|k: int| 0 <= k < p.len() ==> #[trigger] ws[k] == p[k],
        first_numeric_word(p) is Some,
    ensures
        first_numeric_word(ws) == first_numeric_word(p),
    decreases p.len(),
{
    assert(p.len() > 0);
    assert(ws[0] == p[0]);
    if !starts_with_digit(p[0]) {
        assert forall|k: int| 0 <= k < p.drop_first().len() implies #[trigger] ws.drop_first()[k] == p.drop_first()[k] by {
            assert(ws[k + 1] == p[k + 1]);
        }
        lemma_first_numeric_prefix(p.drop_first(), ws.drop_first());
    }
}

/// The version in the output of the assistant's `--version`: the first word
/// that starts with a digit, trimmed.
pub fn version_from_output(out: &str) -> (r: Option<String>)
    ensures
        opt_text(r) == (match first_numeric_word(words(out@)) {
            Some(w) => Some(trim(w)),
            None => None,
        }),
{
    let cs = chars_of(out);
    let mut open: Vec<char> = Vec::new();
    let mut i: usize = 0;
    while i < cs.len()
        invariant
            cs@ == out@,
            i <= cs.len(),
            open@ == words_fold(out@.take(i as int)).1,
            forall|k: int|
                0 <= k < words_fold(out@.take(i as int)).0.len() ==> !starts_with_digit(
                    #[trigger] words_fold(out@.take(i as int)).0[k],
                ),
        decreases cs.len() - i,
    {
        let ghost done = words_fold(out@.take(i as int)).0;
        assert(out@.take(i + 1).drop_last() =~= out@.take(i as int));
        let c = cs[i];
        let ws = c == '\u{09}' || c == '\u{0a}' || c == '\u{0b}' || c == '\u{0c}' || c == '\u{0d}' || c == ' '
            || c == '\u{85}' || c == '\u{a0}' || c == '\u{1680}' || ('\u{2000}' <= c && c <= '\u{200a}')
            || c == '\u{2028}' || c == '\u{2029}' || c == '\u{202f}' || c == '\u{205f}' || c == '\u{3000}';
        assert(ws == is_white_space(c));
        if ws {
            if open.len() > 0 {
                if open[0] >= '0' && open[0] <= '9' {
                    proof {
                        lemma_first_numeric_push(done, open@);
                        lemma_words_extend(out@, i + 1);
                        assert(words_fold(out@.take(i + 1)).0 == done.push(open@));
                        lemma_first_numeric_prefix(done.push(open@), words(out@));
                    }
                    let t = trim_chars(open.as_slice());
                    return Some(string_from_chars(t.as_slice()));
                }
                open = Vec::new();
            }
        } else {
            open.push(c);
        }
        i += 1;
    }
    assert(out@.take(cs.len() as int) =~= out@);
    proof {
        lemma_first_numeric_push(words_fold(out@).0, open@);
    }
    if open.len() > 0 && open[0] >= '0' && open[0] <= '9' {
        let t = trim_chars(open.as_slice());
        Some(string_from_chars(t.as_slice()))
    } else {
        None
    }
}

/// The words finished in a prefix stay the first words of the whole text.
proof fn lemma_words_extend(s: Seq<char>, i: int)
    requires
        0 <= i <= s.len(),
    ensures
        words_fold(s.take(i)).0.len() <= words(s).len(),
        forall|k: int|
            0 <= k < words_fold(s.take(i)).0.len() ==> #[trigger] words(s)[k] == words_fold(s.take(i)).0[k],
    decreases s.len() - i,
{
    if i < s.len() {
        lemma_words_extend(s, i + 1);
        assert(s.take(i + 1).drop_last() =~= s.take(i));
    } else {
        assert(s.take(i) =~= s);
    }
}

} // verus!
