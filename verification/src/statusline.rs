//! The status line printed under each session of the coding assistant, and
//! the registration of this program as its status-line command: context-window
//! usage read from the session transcript, the text of the line, and the
//! decisions for installing, removing and reporting the registration.
use vstd::prelude::*;
use crate::text::{chars_of, contains, has_substring, lines, lines_fold, strip_cr, same_text, split_lines, string_from_chars, trim, trim_chars};
use crate::quota::ModelLimit;

verus! {

/// Which session is currently rendering a status line.
pub struct ActivityHint {
    pub transcript_path: Option<String>,
    pub session_id: Option<String>,
}

/// The token counts of one request's `usage` object; a key that is missing or
/// not an unsigned integer is `None`.
#[derive(Clone, Copy, Debug, PartialEq, Eq)]
pub struct UsageCounts {
    pub input_tokens: Option<u64>,
    pub cache_creation_input_tokens: Option<u64>,
    pub cache_read_input_tokens: Option<u64>,
}

pub open spec fn count_or_zero(c: Option<u64>) -> int {
    match c {
        Some(n) => n as int,
        None => 0,
    }
}

/// Tokens occupying the context window for one request: everything sent as
/// input (fresh, cache-written and cache-read); output is not yet context.
pub open spec fn fill_of(u: UsageCounts) -> int {
    count_or_zero(u.input_tokens) + count_or_zero(u.cache_creation_input_tokens) + count_or_zero(
        u.cache_read_input_tokens,
    )
}

/// Tokens occupying the context window for one request (see [`fill_of`]).
pub fn context_fill(usage: &UsageCounts) -> (r: u64)
    requires
        fill_of(*usage) <= u64::MAX,
    ensures
        r == fill_of(*usage),
{
    let a = match usage.input_tokens {
        Some(n) => n,
        None => 0,
    };
    let b = match usage.cache_creation_input_tokens {
        Some(n) => n,
        None => 0,
    };
    let c = match usage.cache_read_input_tokens {
        Some(n) => n,
        None => 0,
    };
    a + b + c
}

/// `str::to_lowercase`: Unicode lowercase mapping of a text.
pub uninterp spec fn unicode_lowercase(s: Seq<char>) -> Seq<char>;

/// `str::to_lowercase`, which maps each character to its Unicode lowercase
/// form. On ASCII text that mapping is the ASCII one (`A`..`Z` to `a`..`z`,
/// everything else kept); beyond ASCII it is left to the standard library.
#[verifier::external_body]
fn to_lowercase(s: &str) -> (r: String)
    ensures
        r@ == unicode_lowercase(s@),
        (forall|i: int| 0 <= i < s@.len() ==> (#[trigger] s@[i] as int) < 128) ==> r@ == crate::usage::ascii_lower(
            s@,
        ),
{
    s.to_lowercase()
}

/// Context-window size used as the denominator: one million tokens when the
/// model id carries a `1m` marker (in any letter case) or the session is
/// already past 200k tokens, else 200k.
pub fn context_window(model_id: &str, exceeds_200k: bool) -> (r: u64)
    ensures
        r == (if has_substring(unicode_lowercase(model_id@), "1m"@) || exceeds_200k {
            1_000_000u64
        } else {
            200_000u64
        }),
        (forall|i: int| 0 <= i < model_id@.len() ==> (#[trigger] model_id@[i] as int) < 128) ==> r == (if has_substring(
            crate::usage::ascii_lower(model_id@),
            "1m"@,
        ) || exceeds_200k {
            1_000_000u64
        } else {
            200_000u64
        }),
{
    let lower = to_lowercase(model_id);
    if contains(lower.as_str(), "1m") || exceeds_200k {
        1_000_000
    } else {
        200_000
    }
}

/// One transcript line, as far as the context estimate reads it: the entry's
/// `type` when it is a string, and `message.usage` when present.
pub struct TranscriptLine {
    pub kind: Option<String>,
    pub usage: Option<UsageCounts>,
}

pub struct TranscriptLineView {
    pub kind: Option<Seq<char>>,
    pub usage: Option<UsageCounts>,
}

impl View for TranscriptLine {
    type V = TranscriptLineView;

    open spec fn view(&self) -> TranscriptLineView {
        TranscriptLineView {
            kind: match self.kind {
                Some(k) => Some(k@),
                None => None,
            },
            usage: self.usage,
        }
    }
}

/// What the JSON parser makes of one transcript line; `None` when the line is not JSON.
pub uninterp spec fn transcript_line(text: Seq<char>) -> Option<TranscriptLineView>;

/// `serde_json::from_str` on one line, then the `type` string and the three
/// `message.usage` counts picked out of the parsed value. How JSON text is
/// parsed is left to the parser; a line that is not JSON gives `None`.
#[verifier::external_body]
fn parse_transcript_line(text: &str) -> (r: Option<TranscriptLine>)
    ensures
        r matches Some(t) ==> transcript_line(text@) == Some(t@),
        r is None ==> transcript_line(text@) is None,
{
    let v: serde_json::Value = serde_json::from_str(text).ok()?;
    let usage = v.get("message").and_then(|m| m.get("usage"));
    let count = |k: &str| usage.and_then(|u| u.get(k)).and_then(|x| x.as_u64());
    Some(TranscriptLine {
        kind: v.get("type").and_then(|t| t.as_str()).map(String::from),
        usage: usage.map(|_| UsageCounts {
            input_tokens: count("input_tokens"),
            cache_creation_input_tokens: count("cache_creation_input_tokens"),
            cache_read_input_tokens: count("cache_read_input_tokens"),
        }),
    })
}

/// The usage counts a parsed line contributes: those of an assistant entry that carries usage.
pub open spec fn line_usage(r: Option<TranscriptLineView>) -> Option<UsageCounts> {
    match r {
        Some(t) => if t.kind == Some("assistant"@) {
            t.usage
        } else {
            None
        },
        None => None,
    }
}

/// The context fill of the last assistant entry that carries usage.
pub open spec fn last_fill(rs: Seq<Option<TranscriptLineView>>) -> Option<int>
    decreases rs.len(),
{
    if rs.len() == 0 {
        None
    } else {
        match line_usage(rs.last()) {
            Some(u) => Some(fill_of(u)),
            None => last_fill(rs.drop_last()),
        }
    }
}

/// Every assistant entry's context fill fits in a `u64`.
pub open spec fn fills_fit(rs: Seq<Option<TranscriptLineView>>) -> bool {
    forall|i: int|
        0 <= i < rs.len() ==> match #[trigger] line_usage(rs[i]) {
            Some(u) => fill_of(u) <= u64::MAX,
            None => true,
        }
}

/// The parsed lines of a transcript text: each line trimmed of white space, then parsed.
pub open spec fn transcript_records(content: Seq<char>) -> Seq<Option<TranscriptLineView>> {
    lines(content).map_values(|l: Seq<char>| transcript_line(trim(l)))
}

pub open spec fn view_record(r: Option<TranscriptLine>) -> Option<TranscriptLineView> {
    match r {
        Some(t) => Some(t@),
        None => None,
    }
}

pub open spec fn view_records(rs: Seq<Option<TranscriptLine>>) -> Seq<Option<TranscriptLineView>> {
    rs.map_values(|r: Option<TranscriptLine>| view_record(r))
}

fn is_assistant(kind: &Option<String>) -> (r: bool)
    ensures
        r == (match kind {
            Some(k) => k@ == "assistant"@,
            None => false,
        }),
{
    match kind {
        Some(k) => same_text(k.as_str(), "assistant"),
        None => false,
    }
}

/// The context fill of the last assistant entry with usage among parsed lines.
pub fn last_context_fill(records: &[Option<TranscriptLine>]) -> (r: Option<u64>)
    requires
        fills_fit(view_records(records@)),
    ensures
        r matches Some(f) ==> last_fill(view_records(records@)) == Some(f as int),
        r is None ==> last_fill(view_records(records@)) is None,
{
    let ghost vr = view_records(records@);
    assert(vr.take(records.len() as int) =~= vr);
    let mut i: usize = records.len();
    while i > 0
        invariant
            i <= records.len(),
            vr == view_records(records@),
            fills_fit(vr),
            last_fill(vr) == last_fill(vr.take(i as int)),
        decreases i,
    {
        let ghost pre = vr.take(i as int);
        assert(pre.last() == vr[i - 1]);
        assert(pre.drop_last() =~= vr.take(i - 1));
        match &records[i - 1] {
            Some(t) => {
                if is_assistant(&t.kind) {
                    match &t.usage {
                        Some(u) => {
                            assert(line_usage(vr[i - 1]) == Some(*u));
                            return Some(context_fill(u));
                        },
                        None => {},
                    }
                }
            },
            None => {},
        }
        i -= 1;
    }
    None
}

fn parse_records(content: &str) -> (r: Vec<Option<TranscriptLine>>)
    ensures
        view_records(r@) == transcript_records(content@),
{
    let chars = chars_of(content);
    let ls = split_lines(chars.as_slice());
    let mut out: Vec<Option<TranscriptLine>> = Vec::new();
    let mut i: usize = 0;
    while i < ls.len()
        invariant
            chars@ == content@,
            ls@.len() == lines(content@).len(),
            forall|k: int| 0 <= k < ls@.len() ==> #[trigger] ls@[k]@ == lines(content@)[k],
            i <= ls.len(),
            view_records(out@) == transcript_records(content@).take(i as int),
        decreases ls.len() - i,
    {
        let t = trim_chars(ls[i].as_slice());
        let text = string_from_chars(t.as_slice());
        let rec = parse_transcript_line(text.as_str());
        let ghost rv = view_record(rec);
        assert(rv == transcript_line(trim(lines(content@)[i as int])));
        assert(transcript_records(content@)[i as int] == rv);
        let ghost before = out@;
        out.push(rec);
        proof {
            assert(out@ == before.push(rec));
            assert(view_records(out@) =~= view_records(before).push(rv));
            assert(view_records(out@) =~= transcript_records(content@).take(i + 1));
        }
        i += 1;
    }
    assert(transcript_records(content@).take(ls.len() as int) =~= transcript_records(content@));
    out
}

/// The context fill of the last assistant entry with usage in a transcript
/// text; lines that do not parse (such as a cut-off first line) are skipped.
pub fn parse_last_context_fill(content: &str) -> (r: Option<u64>)
    requires
        fills_fit(transcript_records(content@)),
    ensures
        r matches Some(f) ==> last_fill(transcript_records(content@)) == Some(f as int),
        r is None ==> last_fill(transcript_records(content@)) is None,
{
    let records = parse_records(content);
    last_context_fill(records.as_slice())
}

proof fn lemma_lines_fold_concat(a: Seq<char>, b: Seq<char>)
    requires
        lines_fold(a).1.len() == 0,
    ensures
        lines_fold(a + b) == (lines_fold(a).0 + lines_fold(b).0, lines_fold(b).1),
    decreases b.len(),
{
    if b.len() == 0 {
        assert(a + b =~= a);
        assert(lines_fold(a).0 + Seq::<Seq<char>>::empty() =~= lines_fold(a).0);
    } else {
        assert((a + b).drop_last() =~= a + b.drop_last());
        assert((a + b).last() == b.last());
        lemma_lines_fold_concat(a, b.drop_last());
        let (d, o) = lines_fold(b.drop_last());
        if b.last() == '\n' {
            assert((lines_fold(a).0 + d).push(strip_cr(o)) =~= lines_fold(a).0 + d.push(strip_cr(o)));
        }
    }
}

proof fn lemma_lines_fold_one_line(l: Seq<char>)
    requires
        forall|i: int| 0 <= i < l.len() ==> l[i] != '\n',
    ensures
        lines_fold(l) == (Seq::<Seq<char>>::empty(), l),
    decreases l.len(),
{
    if l.len() > 0 {
        lemma_lines_fold_one_line(l.drop_last());
        assert(l.drop_last().push(l.last()) =~= l);
    }
}

proof fn lemma_last_fill_concat(x: Seq<Option<TranscriptLineView>>, y: Seq<Option<TranscriptLineView>>)
    ensures
        last_fill(x + y) == (match last_fill(y) {
            Some(f) => Some(f),
            None => last_fill(x),
        }),
    decreases y.len(),
{
    if y.len() == 0 {
        assert(x + y =~= x);
    } else {
        assert((x + y).drop_last() =~= x + y.drop_last());
        assert((x + y).last() == y.last());
        lemma_last_fill_concat(x, y.drop_last());
    }
}

/// Reading a transcript in two parts split at a line boundary: the last fill
/// of the whole is that of the later part, or of the earlier part when the
/// later one has none, and the whole fits in `u64` exactly when both parts do
/// (so [`parse_last_context_fill`] and [`checked_last_context_fill`] follow
/// the same law). A single line gives the fill of its usage when it is an
/// assistant entry with usage, and nothing otherwise, so junk and other
/// entries never change the result.
pub proof fn lemma_last_fill_of_parts(a: Seq<char>, b: Seq<char>, l: Seq<char>)
    requires
        a.len() == 0 || a.last() == '\n',
    ensures
        last_fill(transcript_records(a + b)) == (match last_fill(transcript_records(b)) {
            Some(f) => Some(f),
            None => last_fill(transcript_records(a)),
        }),
        fills_fit(transcript_records(a + b)) == (fills_fit(transcript_records(a)) && fills_fit(
            transcript_records(b),
        )),
        (l.len() > 0 && forall|i: int| 0 <= i < l.len() ==> l[i] != '\n') ==> last_fill(transcript_records(l)) == (
        match line_usage(transcript_line(trim(l))) {
            Some(u) => Some(fill_of(u)),
            None => None,
        }),
{
    if a.len() > 0 {
        assert(a.drop_last().push(a.last()) =~= a);
    }
    lemma_lines_fold_concat(a, b);
    let la = lines(a);
    let lb = lines(b);
    assert(la == lines_fold(a).0);
    assert(lines(a + b) =~= la + lb) by {
        if lines_fold(b).1.len() > 0 {
            assert((lines_fold(a).0 + lines_fold(b).0).push(lines_fold(b).1) =~= la + lines_fold(b).0.push(
                lines_fold(b).1,
            ));
        }
    }
    assert(transcript_records(a + b) =~= transcript_records(a) + transcript_records(b));
    lemma_last_fill_concat(transcript_records(a), transcript_records(b));
    let (ra, rb) = (transcript_records(a), transcript_records(b));
    let rab = transcript_records(a + b);
    if fills_fit(rab) {
        assert forall|i: int| 0 <= i < ra.len() implies match #[trigger] line_usage(ra[i]) {
            Some(u) => fill_of(u) <= u64::MAX,
            None => true,
        } by {
            assert(rab[i] == ra[i]);
        }
        assert forall|i: int| 0 <= i < rb.len() implies match #[trigger] line_usage(rb[i]) {
            Some(u) => fill_of(u) <= u64::MAX,
            None => true,
        } by {
            assert(rab[ra.len() + i] == rb[i]);
            assert(line_usage(rab[ra.len() + i]) == line_usage(rb[i]));
        }
    }
    if fills_fit(ra) && fills_fit(rb) {
        assert forall|i: int| 0 <= i < rab.len() implies match #[trigger] line_usage(rab[i]) {
            Some(u) => fill_of(u) <= u64::MAX,
            None => true,
        } by {
            if i < ra.len() {
                assert(rab[i] == ra[i]);
            } else {
                assert(rab[i] == rb[i - ra.len()]);
                assert(line_usage(rb[i - ra.len()]) == line_usage(rab[i]));
            }
        }
    }
    if l.len() > 0 && forall|i: int| 0 <= i < l.len() ==> l[i] != '\n' {
        lemma_lines_fold_one_line(l);
        assert(lines(l) =~= seq![l]);
        let r = transcript_records(l);
        assert(r.len() == 1);
        assert(r[0] == transcript_line(trim(l)));
        assert(r.last() == r[0]);
        assert(r.drop_last() =~= Seq::<Option<TranscriptLineView>>::empty());
        assert(last_fill(r.drop_last()) is None);
    }
}

/// [`parse_last_context_fill`] for any text: `None` when some entry's token
/// counts add up past `u64::MAX`, else the last fill as that function gives it.
pub fn checked_last_context_fill(content: &str) -> (r: Option<Option<u64>>)
    ensures
        r is None <==> !fills_fit(transcript_records(content@)),
        r matches Some(Some(f)) ==> last_fill(transcript_records(content@)) == Some(f as int),
        r matches Some(None) ==> last_fill(transcript_records(content@)) is None,
{
    let records = parse_records(content);
    let ghost vr = view_records(records@);
    let mut i: usize = 0;
    while i < records.len()
        invariant
            i <= records.len(),
            vr == view_records(records@),
            vr == transcript_records(content@),
            fills_fit(vr.take(i as int)),
        decreases records.len() - i,
    {
        let ghost item = vr[i as int];
        assert(vr.take(i + 1)[i as int] == item);
        match &records[i] {
            Some(t) => {
                if is_assistant(&t.kind) {
                    match &t.usage {
                        Some(u) => {
                            let a = match u.input_tokens {
                                Some(n) => n,
                                None => 0,
                            };
                            let b = match u.cache_creation_input_tokens {
                                Some(n) => n,
                                None => 0,
                            };
                            let c = match u.cache_read_input_tokens {
                                Some(n) => n,
                                None => 0,
                            };
                            if a > u64::MAX - b || a + b > u64::MAX - c {
                                assert(line_usage(vr[i as int]) == Some(*u));
                                return None;
                            }
                        },
                        None => {},
                    }
                }
            },
            None => {},
        }
        proof {
            assert forall|j: int| 0 <= j < vr.take(i + 1).len() implies match #[trigger] line_usage(
                vr.take(i + 1)[j],
            ) {
                Some(u) => fill_of(u) <= u64::MAX,
                None => true,
            } by {
                if j < i {
                    assert(vr.take(i + 1)[j] == vr.take(i as int)[j]);
                }
            }
        }
        i += 1;
    }
    assert(vr.take(records.len() as int) =~= vr);
    Some(parse_last_context_fill(content))
}

/// A registered status-line command is ours when its command text names the
/// `--statusline` flag and this program (its name `marker`).
pub open spec fn is_ours_spec(command: Option<Seq<char>>, marker: Seq<char>) -> bool {
    match command {
        Some(c) => has_substring(c, "--statusline"@) && has_substring(c, marker),
        None => false,
    }
}

/// Whether a registered status line (given by its `command` text, when that is
/// a string) is that of this program, named `marker`.
pub fn is_ours(command: Option<&str>, marker: &str) -> (r: bool)
    ensures
        r == is_ours_spec(
            match command {
                Some(c) => Some(c@),
                None => None,
            },
            marker@,
        ),
{
    match command {
        Some(c) => contains(c, "--statusline") && contains(c, marker),
        None => false,
    }
}

/// The command registered for the status line: the executable path in double
/// quotes (the shell would split a path with spaces), then `--statusline`.
pub open spec fn our_command_text(exe: Option<Seq<char>>, marker: Seq<char>) -> Seq<char> {
    let path = match exe {
        Some(p) => p,
        None => marker,
    };
    seq!['"'] + path + "\" --statusline"@
}

/// The status-line command for this executable's path; the bare program name
/// `marker` when the path is unknown.
pub fn our_command(exe: Option<&str>, marker: &str) -> (r: String)
    ensures
        r@ == our_command_text(
            match exe {
                Some(p) => Some(p@),
                None => None,
            },
            marker@,
        ),
{
    let mut out = String::new();
    crate::text::append_str(&mut out, "\"");
    match exe {
        Some(p) => crate::text::append_str(&mut out, p),
        None => crate::text::append_str(&mut out, marker),
    }
    crate::text::append_str(&mut out, "\" --statusline");
    proof {
        reveal_strlit("\"");
    }
    out
}

proof fn lemma_substring_in_concat(a: Seq<char>, b: Seq<char>, c: Seq<char>, n: Seq<char>)
    requires
        has_substring(b, n),
    ensures
        has_substring(a + b + c, n),
{
    let i = choose|i: int| crate::text::occurs_at(b, n, i);
    assert((a + b + c).subrange(a.len() + i, a.len() + i + n.len()) =~= b.subrange(i, i + n.len()));
    assert(crate::text::occurs_at(a + b + c, n, a.len() + i));
}

/// The registered command is recognised as ours whenever the executable's path
/// names this program (and always when the path was unknown).
pub proof fn lemma_our_command_is_ours(exe: Option<Seq<char>>, marker: Seq<char>)
    requires
        exe matches Some(p) ==> has_substring(p, marker),
    ensures
        is_ours_spec(Some(our_command_text(exe, marker)), marker),
{
    let path = match exe {
        Some(p) => p,
        None => marker,
    };
    let tail = "\" --statusline"@;
    reveal_strlit("\" --statusline");
    reveal_strlit("--statusline");
    if exe is None {
        assert(crate::text::occurs_at(path, marker, 0)) by {
            assert(path.subrange(0, path.len() as int) =~= path);
        }
    }
    lemma_substring_in_concat(seq!['"'], path, tail, marker);
    assert(tail.subrange(2, 14) =~= "--statusline"@);
    assert(crate::text::occurs_at(tail, "--statusline"@, 2));
    lemma_substring_in_concat(seq!['"'] + path, tail, Seq::empty(), "--statusline"@);
    assert(seq!['"'] + path + tail + Seq::<char>::empty() =~= our_command_text(exe, marker));
}

/// The top-level value of the settings file.
#[derive(Clone, Copy, Debug, PartialEq, Eq)]
pub enum JsonRoot {
    Object,
    Null,
    Other,
}

/// The settings file as read: missing, unreadable (with the error text), not
/// JSON (with the parser's error text), or a document whose `statusLine`
/// entry, when present, is given by its `command` text (when that is a string).
pub enum SettingsFile {
    Missing,
    Unreadable(String),
    Malformed(String),
    Document { root: JsonRoot, status_line: Option<Option<String>> },
}

/// Only an object can hold a `statusLine` entry.
pub open spec fn settings_wf(f: SettingsFile) -> bool {
    match f {
        SettingsFile::Document { root, status_line } => status_line is Some ==> root == JsonRoot::Object,
        _ => true,
    }
}

pub open spec fn entry_view(e: Option<String>) -> Option<Seq<char>> {
    match e {
        Some(c) => Some(c@),
        None => None,
    }
}

/// A JSON value, carried through unread: the values of the settings object's entries.
#[verifier::external_type_specification]
#[verifier::external_body]
pub struct ExJsonValue(serde_json::Value);

/// What the JSON parser makes of a settings text: the parser's error message,
/// or the kind of the top-level value, the `statusLine` entry (given by its
/// `command` when that is a string) and the keys of the top-level object in
/// the order the parser yields them.
pub uninterp spec fn settings_doc(text: Seq<char>) -> Result<(JsonRoot, Option<Option<Seq<char>>>, Seq<Seq<char>>), Seq<char>>;

pub open spec fn entry_keys<V>(es: Seq<(String, V)>) -> Seq<Seq<char>> {
    es.map_values(|p: (String, V)| p.0@)
}

/// `serde_json::from_str` on the settings text, the error's message when it
/// fails; else the kind of the value, `statusLine.command` picked out, and the
/// object's entries (none unless it is an object). Only an object has keys, so
/// only an object can hold a `statusLine` entry (`Value::get` gives `None` on
/// anything else).
#[verifier::external_body]
fn parse_settings(text: &str) -> (r: Result<ParsedSettings, String>)
    ensures
        r matches Ok(p) ==> (settings_doc(text@) matches Ok(d) && d.0 == p.root && d.1 == entry_view_opt(
            p.status_line,
        ) && d.2 == entry_keys(p.entries@)),
        r matches Ok(p) ==> (p.status_line is Some ==> p.root == JsonRoot::Object),
        r matches Ok(p) ==> (p.root != JsonRoot::Object ==> p.entries@.len() == 0),
        r matches Err(e) ==> (settings_doc(text@) matches Err(m) && m == e@),
{
    let v: serde_json::Value = serde_json::from_str(text).map_err(|e| e.to_string())?;
    let status_line = v.get("statusLine").map(|s| s.get("command").and_then(|c| c.as_str()).map(String::from));
    match v {
        serde_json::Value::Object(m) => Ok(ParsedSettings { root: JsonRoot::Object, status_line, entries: m.into_iter().collect() }),
        serde_json::Value::Null => Ok(ParsedSettings { root: JsonRoot::Null, status_line, entries: Vec::new() }),
        _ => Ok(ParsedSettings { root: JsonRoot::Other, status_line, entries: Vec::new() }),
    }
}

/// A parsed settings document: the kind of its top-level value, its
/// `statusLine` entry (by its `command` text) and its top-level entries.
pub struct ParsedSettings {
    pub root: JsonRoot,
    pub status_line: Option<Option<String>>,
    pub entries: Vec<(String, serde_json::Value)>,
}

pub open spec fn entry_view_opt(sl: Option<Option<String>>) -> Option<Option<Seq<char>>> {
    match sl {
        Some(e) => Some(entry_view(e)),
        None => None,
    }
}

/// The settings file as read (`None`: it does not exist; `Err`: reading it
/// failed with that message) and the entries of its top-level object, for
/// writing it back.
pub open spec fn settings_file_spec(read: Option<Result<String, String>>, r: SettingsFile, es: Seq<Seq<char>>) -> bool {
    match read {
        None => r is Missing && es.len() == 0,
        Some(Err(e)) => r == SettingsFile::Unreadable(e) && es.len() == 0,
        Some(Ok(t)) => match settings_doc(t@) {
            Err(m) => (r matches SettingsFile::Malformed(x) && x@ == m) && es.len() == 0,
            Ok((root, sl, keys)) => (r matches SettingsFile::Document { root: r0, status_line } && r0 == root
                && entry_view_opt(status_line) == sl) && es == keys,
        },
    }
}

/// The settings file as the decisions read it, from what reading its path
/// gave, and the entries of its top-level object (see [`settings_file_spec`]).
pub fn settings_file(read: Option<Result<String, String>>) -> (r: (SettingsFile, Vec<(String, serde_json::Value)>))
    ensures
        settings_wf(r.0),
        settings_file_spec(read, r.0, entry_keys(r.1@)),
{
    match read {
        None => (SettingsFile::Missing, Vec::new()),
        Some(Err(e)) => (SettingsFile::Unreadable(e), Vec::new()),
        Some(Ok(t)) => match parse_settings(t.as_str()) {
            Err(m) => (SettingsFile::Malformed(m), Vec::new()),
            Ok(p) => (SettingsFile::Document { root: p.root, status_line: p.status_line }, p.entries),
        },
    }
}

/// What enabling does to the file after the checks pass.
#[derive(Clone, Copy, Debug, PartialEq, Eq)]
pub enum EnableStep {
    /// Write a new settings file holding only our status line.
    WriteNew,
    /// Copy the file to its backup, then write it back with our status line set.
    BackupAndWrite,
}

/// What disabling does to the file.
#[derive(Clone, Copy, Debug, PartialEq, Eq)]
pub enum DisableStep {
    /// Leave the file as it is.
    Keep,
    /// Write the file back without its `statusLine` entry.
    RemoveAndWrite,
}

/// The message given when another tool's status line is already registered.
pub open spec fn refuse_text() -> Seq<char> {
    "偵測到你已有自訂 statusLine，為避免覆蓋未做更動。請先移除既有設定再啟用。"@
}

/// The prefix of the message for a settings file that is not JSON.
pub open spec fn malformed_prefix() -> Seq<char> {
    "settings.json 解析失敗: "@
}

/// The outcome of enabling for each state of the settings file.
pub open spec fn enable_spec(f: SettingsFile, marker: Seq<char>) -> Result<EnableStep, Seq<char>> {
    match f {
        SettingsFile::Missing => Ok(EnableStep::WriteNew),
        SettingsFile::Unreadable(e) => Err(e@),
        SettingsFile::Malformed(e) => Err(malformed_prefix() + e@),
        SettingsFile::Document { root, status_line } => match status_line {
            Some(c) => if is_ours_spec(entry_view(c), marker) {
                Ok(EnableStep::BackupAndWrite)
            } else {
                Err(refuse_text())
            },
            None => Ok(EnableStep::BackupAndWrite),
        },
    }
}

pub open spec fn result_view<T>(r: Result<T, String>) -> Result<T, Seq<char>> {
    match r {
        Ok(t) => Ok(t),
        Err(e) => Err(e@),
    }
}

fn entry_is_ours(e: &Option<String>, marker: &str) -> (r: bool)
    ensures
        r == is_ours_spec(entry_view(*e), marker@),
{
    match e {
        Some(c) => is_ours(Some(c.as_str()), marker),
        None => is_ours(None, marker),
    }
}

/// Registering our status-line command: refused with the file's own error when
/// it cannot be read or parsed, and refused when another command is already
/// registered (it is never overwritten); otherwise the file is backed up (when
/// it exists) and written with our entry.
pub fn enable(file: &SettingsFile, marker: &str) -> (r: Result<EnableStep, String>)
    requires
        settings_wf(*file),
        !(file matches SettingsFile::Document { root, status_line } && root == JsonRoot::Other),
    ensures
        result_view(r) == enable_spec(*file, marker@),
{
    match file {
        SettingsFile::Missing => Ok(EnableStep::WriteNew),
        SettingsFile::Unreadable(e) => Err(e.clone()),
        SettingsFile::Malformed(e) => {
            let mut msg = String::new();
            crate::text::append_str(&mut msg, "settings.json 解析失敗: ");
            crate::text::append_str(&mut msg, e.as_str());
            Err(msg)
        },
        SettingsFile::Document { root: _, status_line } => match status_line {
            Some(c) => {
                if entry_is_ours(c, marker) {
                    Ok(EnableStep::BackupAndWrite)
                } else {
                    Err(String::from_str("偵測到你已有自訂 statusLine，為避免覆蓋未做更動。請先移除既有設定再啟用。"))
                }
            },
            None => Ok(EnableStep::BackupAndWrite),
        },
    }
}

/// The outcome of disabling for each state of the settings file.
pub open spec fn disable_spec(f: SettingsFile, marker: Seq<char>) -> Result<DisableStep, Seq<char>> {
    match f {
        SettingsFile::Missing => Ok(DisableStep::Keep),
        SettingsFile::Unreadable(e) => Err(e@),
        SettingsFile::Malformed(e) => Err(e@),
        SettingsFile::Document { root, status_line } => match status_line {
            Some(c) => if is_ours_spec(entry_view(c), marker) {
                Ok(DisableStep::RemoveAndWrite)
            } else {
                Ok(DisableStep::Keep)
            },
            None => Ok(DisableStep::Keep),
        },
    }
}

/// Removing our status-line entry: only an entry recognised as ours is removed.
pub fn disable(file: &SettingsFile, marker: &str) -> (r: Result<DisableStep, String>)
    ensures
        result_view(r) == disable_spec(*file, marker@),
{
    match file {
        SettingsFile::Missing => Ok(DisableStep::Keep),
        SettingsFile::Unreadable(e) => Err(e.clone()),
        SettingsFile::Malformed(e) => Err(e.clone()),
        SettingsFile::Document { root: _, status_line } => match status_line {
            Some(c) => {
                if entry_is_ours(c, marker) {
                    Ok(DisableStep::RemoveAndWrite)
                } else {
                    Ok(DisableStep::Keep)
                }
            },
            None => Ok(DisableStep::Keep),
        },
    }
}

/// The registration state for each state of the settings file: an unreadable
/// or corrupt file counts as someone else's.
pub open spec fn status_spec(f: SettingsFile, marker: Seq<char>) -> Seq<char> {
    match f {
        SettingsFile::Missing => "none"@,
        SettingsFile::Unreadable(_) => "foreign"@,
        SettingsFile::Malformed(_) => "foreign"@,
        SettingsFile::Document { root, status_line } => match status_line {
            Some(c) => if is_ours_spec(entry_view(c), marker) {
                "ours"@
            } else {
                "foreign"@
            },
            None => "none"@,
        },
    }
}

/// The registration state of the status line: "ours", "foreign" or "none".
pub fn status(file: &SettingsFile, marker: &str) -> (r: String)
    ensures
        r@ == status_spec(*file, marker@),
{
    match file {
        SettingsFile::Missing => String::from_str("none"),
        SettingsFile::Unreadable(_) => String::from_str("foreign"),
        SettingsFile::Malformed(_) => String::from_str("foreign"),
        SettingsFile::Document { root: _, status_line } => match status_line {
            Some(c) => {
                if entry_is_ours(c, marker) {
                    String::from_str("ours")
                } else {
                    String::from_str("foreign")
                }
            },
            None => String::from_str("none"),
        },
    }
}

/// The three answers agree: what is reported as someone else's is never
/// overwritten by enabling nor removed by disabling; what is reported as ours
/// is removed by disabling and re-registered by enabling; with nothing
/// registered, enabling writes and disabling leaves the file alone.
pub proof fn lemma_status_agrees(f: SettingsFile, marker: Seq<char>)
    ensures
        status_spec(f, marker) == "foreign"@ ==> enable_spec(f, marker) is Err && !(disable_spec(f, marker) == Ok::<
            DisableStep,
            Seq<char>,
        >(DisableStep::RemoveAndWrite)),
        status_spec(f, marker) == "ours"@ ==> enable_spec(f, marker) == Ok::<EnableStep, Seq<char>>(
            EnableStep::BackupAndWrite,
        ) && disable_spec(f, marker) == Ok::<DisableStep, Seq<char>>(DisableStep::RemoveAndWrite),
        status_spec(f, marker) == "none"@ ==> enable_spec(f, marker) is Ok && disable_spec(f, marker) == Ok::<
            DisableStep,
            Seq<char>,
        >(DisableStep::Keep),
{
    reveal_strlit("foreign");
    reveal_strlit("ours");
    reveal_strlit("none");
    assert("foreign"@.len() != "ours"@.len());
    assert("foreign"@.len() != "none"@.len());
    assert("ours"@[0] != "none"@[0]);
    assert("ours"@ != "none"@);
    assert("foreign"@ != "ours"@);
    assert("foreign"@ != "none"@);
}

/// After enabling, the file holds our command, so it reports as ours and the
/// next disable removes it.
pub proof fn lemma_enabled_file_is_ours(f: SettingsFile, cmd: String, marker: Seq<char>)
    requires
        enable_spec(f, marker) is Ok,
        is_ours_spec(Some(cmd@), marker),
    ensures
        status_spec(SettingsFile::Document { root: JsonRoot::Object, status_line: Some(Some(cmd)) }, marker) == "ours"@,
        disable_spec(SettingsFile::Document { root: JsonRoot::Object, status_line: Some(Some(cmd)) }, marker)
            == Ok::<DisableStep, Seq<char>>(DisableStep::RemoveAndWrite),
{
}

/// The entries of a settings object other than those under `key`, in order.
pub open spec fn without_key<V>(s: Seq<(String, V)>, key: Seq<char>) -> Seq<(String, V)>
    decreases s.len(),
{
    if s.len() == 0 {
        s
    } else if s[0].0@ == key {
        without_key(s.drop_first(), key)
    } else {
        seq![s[0]] + without_key(s.drop_first(), key)
    }
}

/// The value an object built from these entries holds under `k`: the last
/// entry with that key wins, as when a map is collected from them.
pub open spec fn lookup<V>(s: Seq<(String, V)>, k: Seq<char>) -> Option<V>
    decreases s.len(),
{
    if s.len() == 0 {
        None
    } else {
        match lookup(s.drop_first(), k) {
            Some(v) => Some(v),
            None => if s[0].0@ == k {
                Some(s[0].1)
            } else {
                None
            },
        }
    }
}

proof fn lemma_lookup_push<V>(s: Seq<(String, V)>, p: (String, V), k: Seq<char>)
    ensures
        lookup(s.push(p), k) == (if p.0@ == k {
            Some(p.1)
        } else {
            lookup(s, k)
        }),
    decreases s.len(),
{
    let t = s.push(p);
    assert(t[0] == (if s.len() == 0 { p } else { s[0] }));
    if s.len() == 0 {
        assert(t.drop_first() =~= Seq::<(String, V)>::empty());
        assert(lookup(t.drop_first(), k) is None);
    } else {
        assert(t.drop_first() =~= s.drop_first().push(p));
        lemma_lookup_push(s.drop_first(), p, k);
    }
}

proof fn lemma_lookup_without<V>(s: Seq<(String, V)>, key: Seq<char>, k: Seq<char>)
    ensures
        lookup(without_key(s, key), k) == (if k == key {
            None
        } else {
            lookup(s, k)
        }),
    decreases s.len(),
{
    if s.len() > 0 {
        lemma_lookup_without(s.drop_first(), key, k);
        if s[0].0@ != key {
            let t = seq![s[0]] + without_key(s.drop_first(), key);
            assert(t.drop_first() =~= without_key(s.drop_first(), key));
        }
    }
}

proof fn lemma_without_push<V>(s: Seq<(String, V)>, p: (String, V), key: Seq<char>)
    ensures
        without_key(s.push(p), key) == (if p.0@ == key {
            without_key(s, key)
        } else {
            without_key(s, key).push(p)
        }),
    decreases s.len(),
{
    let t = s.push(p);
    assert(t[0] == (if s.len() == 0 { p } else { s[0] }));
    if s.len() == 0 {
        assert(t.drop_first() =~= Seq::<(String, V)>::empty());
        assert(without_key(t.drop_first(), key) =~= Seq::<(String, V)>::empty());
        assert(without_key(s, key) =~= Seq::<(String, V)>::empty());
        assert(seq![p] + Seq::<(String, V)>::empty() =~= Seq::<(String, V)>::empty().push(p));
    } else {
        assert(s.push(p).drop_first() =~= s.drop_first().push(p));
        lemma_without_push(s.drop_first(), p, key);
        if s[0].0@ != key && p.0@ != key {
            assert(seq![s[0]] + without_key(s.drop_first(), key).push(p) =~= (seq![s[0]] + without_key(
                s.drop_first(),
                key,
            )).push(p));
        }
    }
}

proof fn lemma_without_twice<V>(s: Seq<(String, V)>, key: Seq<char>)
    ensures
        without_key(without_key(s, key), key) == without_key(s, key),
    decreases s.len(),
{
    if s.len() > 0 {
        lemma_without_twice(s.drop_first(), key);
        if s[0].0@ != key {
            let t = seq![s[0]] + without_key(s.drop_first(), key);
            assert(t.drop_first() =~= without_key(s.drop_first(), key));
        }
    }
}

proof fn lemma_without_absent<V>(s: Seq<(String, V)>, key: Seq<char>)
    requires
        forall|i: int| 0 <= i < s.len() ==> (#[trigger] s[i]).0@ != key,
    ensures
        without_key(s, key) == s,
    decreases s.len(),
{
    if s.len() > 0 {
        assert forall|i: int| 0 <= i < s.drop_first().len() implies (#[trigger] s.drop_first()[i]).0@ != key by {
            assert(s.drop_first()[i] == s[i + 1]);
        }
        lemma_without_absent(s.drop_first(), key);
        assert(s[0].0@ != key);
        assert(seq![s[0]] + s.drop_first() =~= s);
    }
}

/// Removes the entries under `key` from a settings object's entries, keeping
/// the others in order.
pub fn remove_entry<V>(entries: &mut Vec<(String, V)>, key: &str)
    ensures
        final(entries)@ == without_key(old(entries)@, key@),
        forall|k: Seq<char>|
            #[trigger] lookup(final(entries)@, k) == (if k == key@ {
                None
            } else {
                lookup(old(entries)@, k)
            }),
{
    let ghost orig = entries@;
    let mut kept: Vec<(String, V)> = Vec::new();
    while entries.len() > 0
        invariant
            without_key(orig, key@) == kept@ + without_key(entries@, key@),
        decreases entries.len(),
    {
        let ghost rest = entries@;
        let p = entries.remove(0);
        assert(rest.drop_first() =~= entries@);
        if same_text(p.0.as_str(), key) {
            assert(without_key(rest, key@) == without_key(entries@, key@));
        } else {
            let ghost before = kept@;
            kept.push(p);
            assert(without_key(rest, key@) == seq![p] + without_key(entries@, key@));
            assert(kept@ + without_key(entries@, key@) =~= before + (seq![p] + without_key(entries@, key@)));
        }
    }
    assert(without_key(entries@, key@) =~= Seq::<(String, V)>::empty());
    assert(kept@ + Seq::<(String, V)>::empty() =~= kept@);
    *entries = kept;
    proof {
        assert forall|k: Seq<char>| #[trigger] lookup(entries@, k) == (if k == key@ {
            None
        } else {
            lookup(orig, k)
        }) by {
            lemma_lookup_without(orig, key@, k);
        }
    }
}

/// Sets `key` to `value` in a settings object's entries: the entries under
/// `key` are replaced by one new entry at the end, the others kept in order.
pub fn set_entry<V>(entries: &mut Vec<(String, V)>, key: &str, value: V)
    ensures
        final(entries)@.len() > 0,
        final(entries)@.drop_last() == without_key(old(entries)@, key@),
        final(entries)@.last().0@ == key@,
        final(entries)@.last().1 == value,
        forall|k: Seq<char>|
            #[trigger] lookup(final(entries)@, k) == (if k == key@ {
                Some(value)
            } else {
                lookup(old(entries)@, k)
            }),
{
    let ghost orig = entries@;
    remove_entry(entries, key);
    let ghost mid = entries@;
    entries.push((String::from_str(key), value));
    proof {
        assert(entries@.drop_last() =~= mid);
        assert forall|k: Seq<char>| #[trigger] lookup(entries@, k) == (if k == key@ {
            Some(value)
        } else {
            lookup(orig, k)
        }) by {
            lemma_lookup_push(mid, entries@.last(), k);
            assert(mid.push(entries@.last()) =~= entries@);
            lemma_lookup_without(orig, key@, k);
        }
    }
}

/// Disabling after enabling gives back exactly the settings object's other
/// entries, in order (the whole object when it had no status line); every
/// other key keeps its value throughout.
pub proof fn lemma_disable_undoes_enable<V>(s: Seq<(String, V)>, key: Seq<char>, entry: (String, V), k: Seq<char>)
    requires
        entry.0@ == key,
    ensures
        without_key(without_key(s, key).push(entry), key) == without_key(s, key),
        (forall|i: int| 0 <= i < s.len() ==> (#[trigger] s[i]).0@ != key) ==> without_key(
            without_key(s, key).push(entry),
            key,
        ) == s,
        k != key ==> lookup(without_key(s, key).push(entry), k) == lookup(s, k),
        k != key ==> lookup(without_key(without_key(s, key).push(entry), key), k) == lookup(s, k),
{
    lemma_without_push(without_key(s, key), entry, key);
    lemma_without_twice(s, key);
    if forall|i: int| 0 <= i < s.len() ==> (#[trigger] s[i]).0@ != key {
        lemma_without_absent(s, key);
    }
    lemma_lookup_push(without_key(s, key), entry, k);
    lemma_lookup_without(s, key, k);
    lemma_lookup_without(without_key(s, key).push(entry), key, k);
}

/// The model-limit segments: `" · <label> <percent>"` for each limit, the
/// percentages already painted.
pub open spec fn model_segment_text<P>(limits: Seq<ModelLimit<P>>, painted: Seq<String>) -> Seq<char>
    decreases limits.len(),
{
    if limits.len() == 0 || painted.len() == 0 {
        Seq::empty()
    } else {
        model_segment_text(limits.drop_last(), painted.drop_last()) + " · "@ + limits.last().label@ + " "@
            + painted.last()@
    }
}

/// `" · <label> <percent>"` for each model-scoped limit ("" when there are
/// none); `painted[i]` is `limits[i]`'s percentage as painted for the terminal.
pub fn model_segment<P>(limits: &[ModelLimit<P>], painted: &[String]) -> (r: String)
    requires
        limits.len() == painted.len(),
    ensures
        r@ == model_segment_text(limits@, painted@),
{
    let mut out = String::new();
    let mut i: usize = 0;
    while i < limits.len()
        invariant
            limits.len() == painted.len(),
            i <= limits.len(),
            out@ == model_segment_text(limits@.take(i as int), painted@.take(i as int)),
        decreases limits.len() - i,
    {
        let ghost before = out@;
        crate::text::append_str(&mut out, " · ");
        crate::text::append_str(&mut out, limits[i].label.as_str());
        crate::text::append_str(&mut out, " ");
        crate::text::append_str(&mut out, painted[i].as_str());
        proof {
            assert(limits@.take(i + 1).drop_last() =~= limits@.take(i as int));
            assert(painted@.take(i + 1).drop_last() =~= painted@.take(i as int));
            assert(out@ =~= model_segment_text(limits@.take(i + 1), painted@.take(i + 1)));
        }
        i += 1;
    }
    assert(limits@.take(limits.len() as int) =~= limits@);
    assert(painted@.take(painted.len() as int) =~= painted@);
    out
}

/// The `" · ctx <percent>"` suffix from an already painted percentage ("" when unknown).
pub fn ctx_segment(painted: Option<&str>) -> (r: String)
    ensures
        r@ == (match painted {
            Some(p) => " · ctx "@ + p@,
            None => Seq::empty(),
        }),
{
    match painted {
        Some(p) => {
            let mut out = String::from_str(" · ctx ");
            crate::text::append_str(&mut out, p);
            out
        },
        None => String::new(),
    }
}

pub open spec fn window_text(painted: Option<Seq<char>>) -> Seq<char> {
    match painted {
        Some(p) => p,
        None => "—"@,
    }
}

/// The whole status line: `⚡ <5h> · 7d <7d><model segments><ctx segment>`,
/// a window without data shown as `—`.
pub fn status_text(five_hour: Option<&str>, seven_day: Option<&str>, model_seg: &str, ctx_seg: &str) -> (r: String)
    ensures
        r@ == "⚡ "@ + window_text(
            match five_hour {
                Some(p) => Some(p@),
                None => None,
            },
        ) + " · 7d "@ + window_text(
            match seven_day {
                Some(p) => Some(p@),
                None => None,
            },
        ) + model_seg@ + ctx_seg@,
{
    let mut out = String::from_str("⚡ ");
    match five_hour {
        Some(p) => crate::text::append_str(&mut out, p),
        None => crate::text::append_str(&mut out, "—"),
    }
    crate::text::append_str(&mut out, " · 7d ");
    match seven_day {
        Some(p) => crate::text::append_str(&mut out, p),
        None => crate::text::append_str(&mut out, "—"),
    }
    crate::text::append_str(&mut out, model_seg);
    crate::text::append_str(&mut out, ctx_seg);
    out
}

/// The registered command quotes the executable's own path, whatever the
/// program's name: a double quote, the path itself, then `" --statusline`;
/// the program name stands in only when the path is unknown.
pub proof fn lemma_our_command_quotes_path(p: Seq<char>, marker: Seq<char>, other: Seq<char>)
    ensures
        our_command_text(Some(p), marker) == our_command_text(Some(p), other),
        our_command_text(Some(p), marker).len() == p.len() + 15,
        our_command_text(Some(p), marker)[0] == '"',
        our_command_text(Some(p), marker).subrange(1, p.len() + 1int) == p,
        our_command_text(Some(p), marker).subrange(p.len() + 1int, p.len() + 15int) == "\" --statusline"@,
        our_command_text(None, marker).subrange(1, marker.len() + 1int) == marker,
{
    reveal_strlit("\" --statusline");
    let c = our_command_text(Some(p), marker);
    assert(c.subrange(1, p.len() + 1int) =~= p);
    assert(c.subrange(p.len() + 1int, p.len() + 15int) =~= "\" --statusline"@);
    let n = our_command_text(None, marker);
    assert(n.subrange(1, marker.len() + 1int) =~= marker);
}

} // verus!
