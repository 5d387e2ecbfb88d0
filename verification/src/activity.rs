//! Live activity of the current sessions: tokens burned over a recent window,
//! the per-minute sparkline, and whether a session is active.
//!
//! Instants are nanoseconds since the Unix epoch; spans between them are
//! counted in whole seconds rounded toward zero, as the date library does.
use vstd::prelude::*;

verus! {

/// Silence (seconds) after which a session counts as inactive.
pub const ACTIVE_WINDOW_SECS: i64 = 120;

/// Window (seconds) over which the burn rate is averaged.
pub const RATE_WINDOW_SECS: i64 = 300;

/// Number of per-minute buckets in the sparkline.
pub const SPARK_MINUTES: usize = 10;

/// Largest number of seconds a time span may hold.
pub const MAX_SPAN_SECS: i64 = 9_223_372_036_854_775;

/// Earliest and latest instants the date library represents, in nanoseconds.
pub open spec fn min_instant_ns() -> int {
    -8_334_601_315_200_000_000_000
}

pub open spec fn max_instant_ns() -> int {
    8_210_266_876_799_999_999_999
}

/// `a / b` rounded toward zero, for `b > 0`.
pub open spec fn trunc_div(a: int, b: int) -> int {
    if a >= 0 {
        a / b
    } else {
        -((-a) / b)
    }
}

/// Whole seconds in a span of `ns` nanoseconds, rounded toward zero.
pub open spec fn whole_seconds(ns: int) -> int {
    trunc_div(ns, 1_000_000_000)
}

fn seconds_between(now_ns: i64, t_ns: i64) -> (r: i128)
    ensures
        r == whole_seconds(now_ns - t_ns),
        -20_000_000_000 <= r <= 20_000_000_000,
{
    let d: i128 = now_ns as i128 - t_ns as i128;
    if d >= 0 {
        d / 1_000_000_000
    } else {
        -((-d) / 1_000_000_000)
    }
}

/// Whether a session is active: a fresh hint says so, else the last token
/// landed at most [`ACTIVE_WINDOW_SECS`] whole seconds ago.
pub fn is_active(last_ns: Option<i64>, now_ns: i64, hint_fresh: bool) -> (r: bool)
    ensures
        r == (hint_fresh || (last_ns matches Some(t) && whole_seconds(now_ns - t) <= ACTIVE_WINDOW_SECS)),
{
    if hint_fresh {
        return true;
    }
    match last_ns {
        Some(t) => seconds_between(now_ns, t) <= ACTIVE_WINDOW_SECS as i128,
        None => false,
    }
}

/// Tokens of the events at or after `cutoff_ns`.
pub open spec fn tokens_since(events: Seq<(i64, u64)>, cutoff_ns: int) -> int
    decreases events.len(),
{
    if events.len() == 0 {
        0
    } else {
        tokens_since(events.drop_last(), cutoff_ns) + (if events.last().0 >= cutoff_ns {
            events.last().1 as int
        } else {
            0
        })
    }
}

/// The window ending now can be subtracted from the current instant.
pub open spec fn window_ok(now_ns: int, window_secs: int) -> bool {
    &&& -MAX_SPAN_SECS <= window_secs <= MAX_SPAN_SECS
    &&& min_instant_ns() <= now_ns - window_secs * 1_000_000_000 <= max_instant_ns()
}

proof fn lemma_tokens_since_mono(events: Seq<(i64, u64)>, cutoff_ns: int, i: int)
    requires
        0 <= i <= events.len(),
    ensures
        0 <= tokens_since(events.take(i), cutoff_ns) <= tokens_since(events, cutoff_ns),
    decreases events.len() - i,
{
    if i < events.len() {
        lemma_tokens_since_mono(events, cutoff_ns, i + 1);
        assert(events.take(i + 1).drop_last() =~= events.take(i));
    } else {
        assert(events.take(i) =~= events);
    }
    if i > 0 {
        lemma_tokens_since_nonneg(events.take(i), cutoff_ns);
    }
}

proof fn lemma_tokens_since_nonneg(events: Seq<(i64, u64)>, cutoff_ns: int)
    ensures
        tokens_since(events, cutoff_ns) >= 0,
    decreases events.len(),
{
    if events.len() > 0 {
        lemma_tokens_since_nonneg(events.drop_last(), cutoff_ns);
    }
}

/// Tokens burned in the last `window_secs` seconds: the sum over the events at
/// or after `now - window`. The burn rate is this divided by the window in minutes.
pub fn window_tokens(events: &[(i64, u64)], now_ns: i64, window_secs: i64) -> (r: u64)
    requires
        window_ok(now_ns as int, window_secs as int),
        tokens_since(events@, now_ns - window_secs * 1_000_000_000) <= u64::MAX,
    ensures
        r == tokens_since(events@, now_ns - window_secs * 1_000_000_000),
{
    let cutoff: i128 = now_ns as i128 - (window_secs as i128) * 1_000_000_000;
    let mut sum: u64 = 0;
    let mut i: usize = 0;
    while i < events.len()
        invariant
            i <= events.len(),
            cutoff == now_ns - window_secs * 1_000_000_000,
            tokens_since(events@, cutoff as int) <= u64::MAX,
            sum == tokens_since(events@.take(i as int), cutoff as int),
        decreases events.len() - i,
    {
        proof {
            lemma_tokens_since_mono(events@, cutoff as int, i + 1);
            assert(events@.take(i + 1).drop_last() =~= events@.take(i as int));
        }
        let (t, n) = events[i];
        if t as i128 >= cutoff {
            sum = sum + n;
        }
        i += 1;
    }
    assert(events@.take(events.len() as int) =~= events@);
    sum
}


/// [`window_tokens`] without the bound on the sum: `None` when the tokens in
/// the window add up past `u64::MAX`.
pub fn checked_window_tokens(events: &[(i64, u64)], now_ns: i64, window_secs: i64) -> (r: Option<u64>)
    requires
        window_ok(now_ns as int, window_secs as int),
    ensures
        r is None <==> tokens_since(events@, now_ns - window_secs * 1_000_000_000) > u64::MAX,
        r matches Some(s) ==> s == tokens_since(events@, now_ns - window_secs * 1_000_000_000),
{
    let cutoff: i128 = now_ns as i128 - (window_secs as i128) * 1_000_000_000;
    let mut sum: u64 = 0;
    let mut i: usize = 0;
    while i < events.len()
        invariant
            i <= events.len(),
            cutoff == now_ns - window_secs * 1_000_000_000,
            sum == tokens_since(events@.take(i as int), cutoff as int),
        decreases events.len() - i,
    {
        proof {
            assert(events@.take(i + 1).drop_last() =~= events@.take(i as int));
            lemma_tokens_since_mono(events@, cutoff as int, i + 1);
        }
        let (t, n) = events[i];
        if t as i128 >= cutoff {
            if sum > u64::MAX - n {
                return None;
            }
            sum = sum + n;
        }
        i += 1;
    }
    assert(events@.take(events.len() as int) =~= events@);
    Some(window_tokens(events, now_ns, window_secs))
}

/// How many whole minutes ago an event happened (0 = the current minute;
/// negative for events in the future, rounded toward zero).
pub open spec fn age_minutes(now_ns: int, t_ns: int) -> int {
    trunc_div(whole_seconds(now_ns - t_ns), 60)
}

/// Tokens falling in bucket `i` of a sparkline of `minutes` buckets, oldest first.
pub open spec fn bucket_tokens(events: Seq<(i64, u64)>, now_ns: int, minutes: int, i: int) -> int
    decreases events.len(),
{
    if events.len() == 0 {
        0
    } else {
        let age = age_minutes(now_ns, events.last().0 as int);
        bucket_tokens(events.drop_last(), now_ns, minutes, i) + (if 0 <= age < minutes && minutes - 1 - age
            == i {
            events.last().1 as int
        } else {
            0
        })
    }
}

proof fn lemma_bucket_bound(events: Seq<(i64, u64)>, now_ns: int, minutes: int, i: int)
    ensures
        0 <= bucket_tokens(events, now_ns, minutes, i) <= events.len() * 0xffff_ffff_ffff_ffff,
    decreases events.len(),
{
    if events.len() > 0 {
        lemma_bucket_bound(events.drop_last(), now_ns, minutes, i);
    }
}

/// Per-minute token sums for the last `minutes` minutes, oldest first and the
/// current minute last: an event `a` whole minutes old lands in bucket
/// `minutes - 1 - a`; events older than the window or in the future beyond
/// the current minute are left out.
pub fn spark_buckets(events: &[(i64, u64)], now_ns: i64, minutes: usize) -> (r: Vec<u128>)
    ensures
        r@.len() == minutes,
        forall|i: int| 0 <= i < minutes ==> r@[i] == bucket_tokens(events@, now_ns as int, minutes as int, i),
{
    let mut buckets: Vec<u128> = Vec::new();
    let mut j: usize = 0;
    while j < minutes
        invariant
            j <= minutes,
            buckets@.len() == j,
            forall|i: int| 0 <= i < j ==> buckets@[i] == 0,
        decreases minutes - j,
    {
        buckets.push(0);
        j += 1;
    }
    let mut k: usize = 0;
    while k < events.len()
        invariant
            k <= events.len(),
            buckets@.len() == minutes,
            forall|i: int|
                0 <= i < minutes ==> buckets@[i] == bucket_tokens(events@.take(k as int), now_ns as int, minutes as int, i),
        decreases events.len() - k,
    {
        proof {
            assert(events@.take(k + 1).drop_last() =~= events@.take(k as int));
        }
        let (t, n) = events[k];
        let secs = seconds_between(now_ns, t);
        let age: i128 = if secs >= 0 {
            secs / 60
        } else {
            -((-secs) / 60)
        };
        assert(age == age_minutes(now_ns as int, t as int));
        if age >= 0 && age < minutes as i128 {
            let idx = minutes - 1 - (age as usize);
            proof {
                lemma_bucket_bound(events@.take(k as int), now_ns as int, minutes as int, idx as int);
                assert(k * 0xffff_ffff_ffff_ffff + 0xffff_ffff_ffff_ffff <= u128::MAX) by (nonlinear_arith)
                    requires
                        k < 0x1_0000_0000_0000_0000,
                ;
            }
            let cur = buckets[idx];
            buckets.set(idx, cur + n as u128);
        }
        k += 1;
    }
    assert(events@.take(events.len() as int) =~= events@);
    buckets
}

} // verus!
