//! Token accounting over the local session transcripts: per-request token
//! counts added into a running tally, and the pricing class of a model.
use vstd::prelude::*;
use crate::text::{chars_of, contains_chars, has_substring, lines, same_text, split_lines, string_from_chars, trim, trim_chars};
use crate::renewal::valid_date;
use chrono::Datelike;

verus! {

/// Pricing classes of the built-in price table.
#[derive(Clone, Copy, Debug, PartialEq, Eq)]
pub enum PricingClass {
    Opus,
    Haiku,
    /// Sonnet, and the default for any other model.
    Sonnet,
}

/// ASCII lowercase of a character, as `to_ascii_lowercase` maps it.
pub open spec fn ascii_lower_char(c: char) -> char {
    if 65 <= (c as int) <= 90 {
        ((c as int) + 32) as char
    } else {
        c
    }
}

/// ASCII lowercase of a text.
pub open spec fn ascii_lower(s: Seq<char>) -> Seq<char> {
    s.map_values(|c: char| ascii_lower_char(c))
}

fn ascii_lowercase(s: &str) -> (r: Vec<char>)
    ensures
        r@ == ascii_lower(s@),
{
    let cs = chars_of(s);
    let mut out: Vec<char> = Vec::new();
    let mut i: usize = 0;
    while i < cs.len()
        invariant
            cs@ == s@,
            i <= cs.len(),
            out@ == ascii_lower(s@).take(i as int),
        decreases cs.len() - i,
    {
        let c = cs[i];
        let l = if c >= 'A' && c <= 'Z' {
            ((c as u32 as u8) + 32) as char
        } else {
            c
        };
        out.push(l);
        assert(out@ =~= ascii_lower(s@).take(i + 1));
        i += 1;
    }
    assert(ascii_lower(s@).take(cs.len() as int) =~= ascii_lower(s@));
    out
}

/// The pricing class of a model id: `opus` or `haiku` anywhere in it (in any
/// ASCII letter case), else Sonnet.
pub open spec fn pricing_class_spec(model: Seq<char>) -> PricingClass {
    let m = ascii_lower(model);
    if has_substring(m, "opus"@) {
        PricingClass::Opus
    } else if has_substring(m, "haiku"@) {
        PricingClass::Haiku
    } else {
        PricingClass::Sonnet
    }
}

/// The pricing class of a model id (see [`pricing_class_spec`]).
pub fn pricing_for(model: &str) -> (r: PricingClass)
    ensures
        r == pricing_class_spec(model@),
{
    let m = ascii_lowercase(model);
    let opus = chars_of("opus");
    let haiku = chars_of("haiku");
    if contains_chars(m.as_slice(), opus.as_slice()) {
        PricingClass::Opus
    } else if contains_chars(m.as_slice(), haiku.as_slice()) {
        PricingClass::Haiku
    } else {
        PricingClass::Sonnet
    }
}

/// The 5-minute / 1-hour split of cache-creation tokens.
#[derive(Clone, Copy, Debug, PartialEq, Eq)]
pub struct CacheCreation {
    pub ephemeral_5m_input_tokens: Option<u64>,
    pub ephemeral_1h_input_tokens: Option<u64>,
}

/// The token counts of one assistant request; a key that is missing or not an
/// unsigned integer is `None`.
#[derive(Clone, Copy, Debug, PartialEq, Eq)]
pub struct UsageRecord {
    pub input_tokens: Option<u64>,
    pub output_tokens: Option<u64>,
    pub cache_creation_input_tokens: Option<u64>,
    pub cache_read_input_tokens: Option<u64>,
    pub cache_creation: Option<CacheCreation>,
}

pub open spec fn or_zero(c: Option<u64>) -> int {
    match c {
        Some(n) => n as int,
        None => 0,
    }
}

/// Cache writes split into 5-minute and 1-hour tokens: the explicit split when
/// the request carries one, else the lumped count as 5-minute writes.
pub open spec fn cache_split(u: UsageRecord) -> (int, int) {
    match u.cache_creation {
        Some(cc) => (or_zero(cc.ephemeral_5m_input_tokens), or_zero(cc.ephemeral_1h_input_tokens)),
        None => (or_zero(u.cache_creation_input_tokens), 0),
    }
}

fn or_zero_exec(c: Option<u64>) -> (r: u64)
    ensures
        r == or_zero(c),
{
    match c {
        Some(n) => n,
        None => 0,
    }
}

/// The cache-write split of a request (see [`cache_split`]).
pub fn cache_write_split(u: &UsageRecord) -> (r: (u64, u64))
    ensures
        (r.0 as int, r.1 as int) == cache_split(*u),
{
    match u.cache_creation {
        Some(cc) => (or_zero_exec(cc.ephemeral_5m_input_tokens), or_zero_exec(cc.ephemeral_1h_input_tokens)),
        None => (or_zero_exec(u.cache_creation_input_tokens), 0),
    }
}

/// Running token totals for a day.
#[derive(Clone, Copy, Debug, PartialEq, Eq)]
pub struct TokenTally {
    pub input: u64,
    pub output: u64,
    pub cache_write: u64,
    pub cache_read: u64,
    pub total: u64,
}

/// An empty tally.
pub fn empty_tally() -> (r: TokenTally)
    ensures
        r == (TokenTally { input: 0, output: 0, cache_write: 0, cache_read: 0, total: 0 }),
{
    TokenTally { input: 0, output: 0, cache_write: 0, cache_read: 0, total: 0 }
}

/// Adding the request fits in the tally's counters.
pub open spec fn add_fits(acc: TokenTally, u: UsageRecord) -> bool {
    let (w5, w1) = cache_split(u);
    &&& w5 + w1 <= u64::MAX
    &&& acc.input + or_zero(u.input_tokens) <= u64::MAX
    &&& acc.output + or_zero(u.output_tokens) <= u64::MAX
    &&& acc.cache_read + or_zero(u.cache_read_input_tokens) <= u64::MAX
    &&& acc.cache_write + w5 + w1 <= u64::MAX
}

/// Adds one request's tokens to the tally and returns its cache-write split
/// (which the cost estimate prices separately). The total is left to [`finish_total`].
pub fn add_usage(acc: &mut TokenTally, u: &UsageRecord) -> (r: (u64, u64))
    requires
        add_fits(*old(acc), *u),
    ensures
        (r.0 as int, r.1 as int) == cache_split(*u),
        final(acc).input == old(acc).input + or_zero(u.input_tokens),
        final(acc).output == old(acc).output + or_zero(u.output_tokens),
        final(acc).cache_read == old(acc).cache_read + or_zero(u.cache_read_input_tokens),
        final(acc).cache_write == old(acc).cache_write + cache_split(*u).0 + cache_split(*u).1,
        final(acc).total == old(acc).total,
{
    let input = or_zero_exec(u.input_tokens);
    let output = or_zero_exec(u.output_tokens);
    let cache_read = or_zero_exec(u.cache_read_input_tokens);
    let (w5, w1) = cache_write_split(u);
    let cache_write = w5 + w1;
    acc.input = acc.input + input;
    acc.output = acc.output + output;
    acc.cache_read = acc.cache_read + cache_read;
    acc.cache_write = acc.cache_write + cache_write;
    (w5, w1)
}

/// Sets the total to the sum of the four counts.
pub fn finish_total(acc: &mut TokenTally)
    requires
        old(acc).input + old(acc).output + old(acc).cache_write + old(acc).cache_read <= u64::MAX,
    ensures
        *final(acc) == (TokenTally {
            total: (old(acc).input + old(acc).output + old(acc).cache_write + old(acc).cache_read) as u64,
            ..*old(acc)
        }),
{
    acc.total = acc.input + acc.output + acc.cache_write + acc.cache_read;
}

/// One transcript line as the daily tally reads it: the entry's `type`,
/// whether its timestamp falls on the day being tallied (in local time),
/// the request's model id and its `message.usage` counts.
pub struct DayEntry {
    pub kind: Option<String>,
    pub on_day: bool,
    pub model: Option<String>,
    pub usage: Option<UsageRecord>,
}

/// An entry counts toward the day: an assistant request of that day that carries usage.
pub open spec fn counts_toward(e: DayEntry) -> bool {
    &&& e.kind matches Some(k) && k@ == "assistant"@
    &&& e.on_day
    &&& e.usage is Some
}

/// The model id an entry is priced by (empty when it names none).
pub open spec fn entry_model(e: DayEntry) -> Seq<char> {
    match e.model {
        Some(m) => m@,
        None => Seq::empty(),
    }
}

/// The tally after adding one request.
pub open spec fn added(t: TokenTally, u: UsageRecord) -> TokenTally {
    TokenTally {
        input: (t.input + or_zero(u.input_tokens)) as u64,
        output: (t.output + or_zero(u.output_tokens)) as u64,
        cache_write: (t.cache_write + cache_split(u).0 + cache_split(u).1) as u64,
        cache_read: (t.cache_read + or_zero(u.cache_read_input_tokens)) as u64,
        total: t.total,
    }
}

/// The tally after adding the requests of the day among the entries, in order;
/// `None` when some addition does not fit in the counters.
pub open spec fn tally_entries(acc: TokenTally, es: Seq<DayEntry>) -> Option<TokenTally>
    decreases es.len(),
{
    if es.len() == 0 {
        Some(acc)
    } else {
        match tally_entries(acc, es.drop_last()) {
            None => None,
            Some(t) => if counts_toward(es.last()) {
                let u = es.last().usage->0;
                if add_fits(t, u) {
                    Some(added(t, u))
                } else {
                    None
                }
            } else {
                Some(t)
            },
        }
    }
}

/// The requests of the day among the entries, in order, each with its pricing class.
pub open spec fn day_requests(es: Seq<DayEntry>) -> Seq<(PricingClass, UsageRecord)>
    decreases es.len(),
{
    if es.len() == 0 {
        Seq::empty()
    } else if counts_toward(es.last()) {
        day_requests(es.drop_last()).push((pricing_class_spec(entry_model(es.last())), es.last().usage->0))
    } else {
        day_requests(es.drop_last())
    }
}

proof fn lemma_tally_stays_none(acc: TokenTally, es: Seq<DayEntry>, k: int)
    requires
        0 <= k <= es.len(),
        tally_entries(acc, es.take(k)) is None,
    ensures
        tally_entries(acc, es) is None,
    decreases es.len() - k,
{
    if k < es.len() {
        assert(es.take(k + 1).drop_last() =~= es.take(k));
        lemma_tally_stays_none(acc, es, k + 1);
    } else {
        assert(es.take(k) =~= es);
    }
}

fn fits_exec(t: &TokenTally, u: &UsageRecord) -> (r: bool)
    ensures
        r == add_fits(*t, *u),
{
    let (w5, w1) = cache_write_split(u);
    let i = or_zero_exec(u.input_tokens);
    let o = or_zero_exec(u.output_tokens);
    let c = or_zero_exec(u.cache_read_input_tokens);
    w5 <= u64::MAX - w1 && t.input <= u64::MAX - i && t.output <= u64::MAX - o && t.cache_read <= u64::MAX - c
        && t.cache_write <= u64::MAX - w5 && t.cache_write + w5 <= u64::MAX - w1
}

/// Adds the day's requests among a transcript's entries to the tally: the
/// assistant entries of that day that carry usage, in order. Returns those
/// requests with their pricing classes (for the cost estimate), or `None`,
/// leaving the tally as it was, when the counts would overflow.
pub fn tally_day(acc: &mut TokenTally, entries: &[DayEntry]) -> (r: Option<Vec<(PricingClass, UsageRecord)>>)
    ensures
        match tally_entries(*old(acc), entries@) {
            Some(t) => r matches Some(v) && v@ == day_requests(entries@) && *final(acc) == t,
            None => r is None && *final(acc) == *old(acc),
        },
{
    let mut t = *acc;
    let mut out: Vec<(PricingClass, UsageRecord)> = Vec::new();
    let mut i: usize = 0;
    assert(entries@.take(0) =~= Seq::<DayEntry>::empty());
    while i < entries.len()
        invariant
            i <= entries.len(),
            tally_entries(*acc, entries@.take(i as int)) == Some(t),
            out@ == day_requests(entries@.take(i as int)),
        decreases entries.len() - i,
    {
        let e = &entries[i];
        assert(entries@.take(i + 1).drop_last() =~= entries@.take(i as int));
        assert(entries@.take(i + 1).last() == entries@[i as int]);
        let assistant = match &e.kind {
            Some(k) => same_text(k.as_str(), "assistant"),
            None => false,
        };
        if assistant && e.on_day {
            if let Some(u) = &e.usage {
                if !fits_exec(&t, u) {
                    proof {
                        lemma_tally_stays_none(*acc, entries@, i + 1);
                    }
                    return None;
                }
                add_usage(&mut t, u);
                let class = match &e.model {
                    Some(m) => pricing_for(m.as_str()),
                    None => pricing_for(""),
                };
                proof {
                    reveal_strlit("");
                    assert(""@ =~= Seq::<char>::empty());
                }
                out.push((class, *u));
            }
        }
        i += 1;
    }
    assert(entries@.take(entries.len() as int) =~= entries@);
    *acc = t;
    Some(out)
}

/// One transcript line, as far as the daily tally reads it: the entry's
/// `type` and `timestamp` when they are strings, `message.model` when it is a
/// string, and the counts of `message.usage` when present.
pub struct DayLine {
    pub kind: Option<String>,
    pub timestamp: Option<String>,
    pub model: Option<String>,
    pub usage: Option<UsageRecord>,
}

pub struct DayLineView {
    pub kind: Option<Seq<char>>,
    pub timestamp: Option<Seq<char>>,
    pub model: Option<Seq<char>>,
    pub usage: Option<UsageRecord>,
}

pub open spec fn text_view(o: Option<String>) -> Option<Seq<char>> {
    match o {
        Some(s) => Some(s@),
        None => None,
    }
}

impl View for DayLine {
    type V = DayLineView;

    open spec fn view(&self) -> DayLineView {
        DayLineView {
            kind: text_view(self.kind),
            timestamp: text_view(self.timestamp),
            model: text_view(self.model),
            usage: self.usage,
        }
    }
}

/// What the JSON parser makes of one transcript line; `None` when it is not JSON.
pub uninterp spec fn day_line(text: Seq<char>) -> Option<DayLineView>;

/// `serde_json::from_str` on one line, then the `type`, `timestamp`,
/// `message.model` strings and the `message.usage` counts (with its
/// `cache_creation` split) picked out of the parsed value. How JSON text is
/// parsed is left to the parser; a line that is not JSON gives `None`.
#[verifier::external_body]
fn parse_day_line(text: &str) -> (r: Option<DayLine>)
    ensures
        r matches Some(l) ==> day_line(text@) == Some(l@),
        r is None ==> day_line(text@) is None,
{
    let v: serde_json::Value = serde_json::from_str(text).ok()?;
    let s = |k: &str| v.pointer(k)?.as_str().map(String::from);
    let n = |k: &str| v.pointer(k)?.as_u64();
    let split = v.pointer("/message/usage/cache_creation").map(|_| CacheCreation {
        ephemeral_5m_input_tokens: n("/message/usage/cache_creation/ephemeral_5m_input_tokens"),
        ephemeral_1h_input_tokens: n("/message/usage/cache_creation/ephemeral_1h_input_tokens"),
    });
    let usage = v.pointer("/message/usage").map(|_| UsageRecord {
        input_tokens: n("/message/usage/input_tokens"),
        output_tokens: n("/message/usage/output_tokens"),
        cache_creation_input_tokens: n("/message/usage/cache_creation_input_tokens"),
        cache_read_input_tokens: n("/message/usage/cache_read_input_tokens"),
        cache_creation: split,
    });
    Some(DayLine { kind: s("/type"), timestamp: s("/timestamp"), model: s("/message/model"), usage })
}

/// Whether a text is an RFC 3339 date-time, as the date library's parser accepts it.
pub uninterp spec fn rfc3339_parses(text: Seq<char>) -> bool;

/// `DateTime::parse_from_rfc3339` then the date in the machine's local time
/// zone: `(year, month, day)`, or `None` exactly when the text is not an RFC
/// 3339 time. Which day it is depends on the time zone, so nothing is claimed
/// of it beyond its being a representable date.
#[verifier::external_body]
fn local_day_of(ts: &str) -> (r: Option<(i32, u32, u32)>)
    ensures
        r is Some <==> rfc3339_parses(ts@),
        r matches Some(d) ==> valid_date(d.0 as int, d.1 as int, d.2 as int),
{
    let d = chrono::DateTime::parse_from_rfc3339(ts).ok()?.with_timezone(&chrono::Local).date_naive();
    Some((d.year(), d.month(), d.day()))
}

/// Whether a line's local date (`None`: it has none) is `today`.
pub fn is_on_day(local: Option<(i32, u32, u32)>, today: (i32, u32, u32)) -> (r: bool)
    ensures
        r == (local == Some(today)),
{
    match local {
        Some(d) => d.0 == today.0 && d.1 == today.1 && d.2 == today.2,
        None => false,
    }
}

/// An entry read from a parsed line, with the local date found for the line:
/// the entry's fields are the line's; the line has a local date exactly when
/// its timestamp is an RFC 3339 time; and it is taken for the day exactly when
/// that date is `today`. A line that is not JSON gives an entry that counts
/// toward nothing.
pub open spec fn entry_of_line(
    e: DayEntry,
    local: Option<(i32, u32, u32)>,
    l: Option<DayLineView>,
    today: (i32, u32, u32),
) -> bool {
    &&& e.on_day == (local == Some(today))
    &&& match l {
        Some(v) => {
            &&& text_view(e.kind) == v.kind
            &&& text_view(e.model) == v.model
            &&& e.usage == v.usage
            &&& (local is Some <==> (v.timestamp matches Some(t) && rfc3339_parses(t)))
        },
        None => e.kind is None && e.model is None && e.usage is None && local is None,
    }
}

/// The entries of a transcript text for the daily tally, one per line (the
/// line trimmed and parsed), with the local date of each line's timestamp as
/// the date library gives it in the machine's time zone (see [`entry_of_line`]).
pub fn day_entries(content: &str, today: (i32, u32, u32)) -> (r: (Vec<DayEntry>, Vec<Option<(i32, u32, u32)>>))
    ensures
        r.0@.len() == lines(content@).len(),
        r.1@.len() == lines(content@).len(),
        forall|i: int|
            0 <= i < r.0@.len() ==> entry_of_line(
                #[trigger] r.0@[i],
                r.1@[i],
                day_line(trim(lines(content@)[i])),
                today,
            ),
        forall|i: int| 0 <= i < r.1@.len() ==> (#[trigger] r.1@[i] matches Some(d) ==> valid_date(d.0 as int, d.1 as int, d.2 as int)),
{
    let chars = chars_of(content);
    let ls = split_lines(chars.as_slice());
    let mut out: Vec<DayEntry> = Vec::new();
    let mut days: Vec<Option<(i32, u32, u32)>> = Vec::new();
    let mut i: usize = 0;
    while i < ls.len()
        invariant
            chars@ == content@,
            ls@.len() == lines(content@).len(),
            forall|k: int| 0 <= k < ls@.len() ==> #[trigger] ls@[k]@ == lines(content@)[k],
            i <= ls.len(),
            out@.len() == i,
            days@.len() == i,
            forall|k: int|
                0 <= k < i ==> entry_of_line(#[trigger] out@[k], days@[k], day_line(trim(lines(content@)[k])), today),
            forall|k: int| 0 <= k < i ==> (#[trigger] days@[k] matches Some(d) ==> valid_date(d.0 as int, d.1 as int, d.2 as int)),
        decreases ls.len() - i,
    {
        let t = trim_chars(ls[i].as_slice());
        let text = string_from_chars(t.as_slice());
        let (e, local) = match parse_day_line(text.as_str()) {
            Some(l) => {
                let local = match &l.timestamp {
                    Some(ts) => local_day_of(ts.as_str()),
                    None => None,
                };
                let on_day = is_on_day(local, today);
                (DayEntry { kind: l.kind, on_day, model: l.model, usage: l.usage }, local)
            },
            None => (DayEntry { kind: None, on_day: false, model: None, usage: None }, None),
        };
        assert(entry_of_line(e, local, day_line(trim(lines(content@)[i as int])), today));
        out.push(e);
        days.push(local);
        i += 1;
    }
    (out, days)
}

/// Lowercasing is the ASCII one: the length is kept, `A`..`Z` become `a`..`z`
/// and every other character stays.
pub proof fn lemma_ascii_lower(s: Seq<char>)
    ensures
        ascii_lower(s).len() == s.len(),
        forall|i: int|
            0 <= i < s.len() ==> (#[trigger] ascii_lower(s)[i] as int) == (if 65 <= (s[i] as int) <= 90 {
                s[i] as int + 32
            } else {
                s[i] as int
            }),
{
}

/// A model is priced as Opus exactly when its lowercased id contains `opus`,
/// as Haiku exactly when it contains `haiku` but not `opus`, and as Sonnet
/// when it contains neither.
pub proof fn lemma_pricing_by_words(model: Seq<char>)
    ensures
        (pricing_class_spec(model) == PricingClass::Opus) == has_substring(ascii_lower(model), "opus"@),
        (pricing_class_spec(model) == PricingClass::Haiku) == (has_substring(ascii_lower(model), "haiku"@)
            && !has_substring(ascii_lower(model), "opus"@)),
        (pricing_class_spec(model) == PricingClass::Sonnet) == (!has_substring(ascii_lower(model), "haiku"@)
            && !has_substring(ascii_lower(model), "opus"@)),
{
}

} // verus!
