//! The parts of the user configuration that are checked on load: the poll
//! interval, the display mode and the pinned corner.
use vstd::prelude::*;
use crate::text::same_text;

verus! {

/// The usage endpoint throttles hard: never poll faster than this many seconds.
pub const MIN_POLL_SECS: u64 = 180;

/// The poll interval actually used: at least [`MIN_POLL_SECS`].
pub fn normalize_poll_secs(poll_secs: u64) -> (r: u64)
    ensures
        r == (if poll_secs < MIN_POLL_SECS {
            MIN_POLL_SECS
        } else {
            poll_secs
        }),
{
    if poll_secs < MIN_POLL_SECS {
        MIN_POLL_SECS
    } else {
        poll_secs
    }
}

/// The display modes a configuration may keep.
pub open spec fn valid_mode(m: Seq<char>) -> bool {
    m == "compact"@ || m == "detailed"@
}

/// The corners the widget may be pinned to.
pub open spec fn valid_corner(c: Seq<char>) -> bool {
    c == "tl"@ || c == "tr"@ || c == "bl"@ || c == "br"@
}

/// The mode after loading: kept when valid, else the default `compact`.
pub open spec fn normalized_mode(m: Seq<char>) -> Seq<char> {
    if valid_mode(m) {
        m
    } else {
        "compact"@
    }
}

/// The corner after loading: kept when valid, else the default `tr`.
pub open spec fn normalized_corner(c: Seq<char>) -> Seq<char> {
    if valid_corner(c) {
        c
    } else {
        "tr"@
    }
}

/// The default display mode.
pub fn default_mode() -> (r: String)
    ensures
        r@ == "compact"@,
{
    String::from_str("compact")
}

/// The default pinned corner.
pub fn default_corner() -> (r: String)
    ensures
        r@ == "tr"@,
{
    String::from_str("tr")
}

/// The display mode after loading (see [`normalized_mode`]).
pub fn normalize_mode(mode: &str) -> (r: String)
    ensures
        r@ == normalized_mode(mode@),
{
    if same_text(mode, "compact") || same_text(mode, "detailed") {
        String::from_str(mode)
    } else {
        String::from_str("compact")
    }
}

/// The pinned corner after loading (see [`normalized_corner`]).
pub fn normalize_corner(corner: &str) -> (r: String)
    ensures
        r@ == normalized_corner(corner@),
{
    if same_text(corner, "tl") || same_text(corner, "tr") || same_text(corner, "bl") || same_text(corner, "br") {
        String::from_str(corner)
    } else {
        String::from_str("tr")
    }
}

/// Whether a requested mode is one that is kept as the default mode (a
/// transient view such as the settings page is not).
pub fn is_saved_mode(mode: &str) -> (r: bool)
    ensures
        r == valid_mode(mode@),
{
    same_text(mode, "compact") || same_text(mode, "detailed")
}

/// Normalising yields valid settings, keeps valid ones unchanged, and a second
/// pass changes nothing; the defaults are valid.
pub proof fn lemma_normalize_laws(mode: Seq<char>, corner: Seq<char>, poll_secs: u64)
    ensures
        valid_mode(normalized_mode(mode)),
        valid_corner(normalized_corner(corner)),
        valid_mode(mode) ==> normalized_mode(mode) == mode,
        valid_corner(corner) ==> normalized_corner(corner) == corner,
        normalized_mode(normalized_mode(mode)) == normalized_mode(mode),
        normalized_corner(normalized_corner(corner)) == normalized_corner(corner),
        valid_mode("compact"@),
        valid_corner("tr"@),
        poll_secs >= MIN_POLL_SECS ==> (if poll_secs < MIN_POLL_SECS {
            MIN_POLL_SECS
        } else {
            poll_secs
        }) == poll_secs,
{
}

/// The corners kept on load are exactly the four corners `tl`, `tr`, `bl` and
/// `br` (the ones the widget can be pinned to); anything else comes back as
/// `tr`. Likewise the modes kept are exactly `compact` and `detailed`, anything
/// else coming back as `compact`.
pub proof fn lemma_kept_corners_and_modes(corner: Seq<char>, mode: Seq<char>)
    ensures
        (normalized_corner(corner) == corner) == (corner == "tl"@ || corner == "tr"@ || corner == "bl"@ || corner
            == "br"@),
        normalized_corner(corner) != corner ==> normalized_corner(corner) == "tr"@,
        (normalized_corner(corner) == corner) == crate::placement::valid_corner_name(corner),
        normalized_corner("tl"@) == "tl"@,
        normalized_corner("tr"@) == "tr"@,
        normalized_corner("bl"@) == "bl"@,
        normalized_corner("br"@) == "br"@,
        (normalized_mode(mode) == mode) == (mode == "compact"@ || mode == "detailed"@),
        normalized_mode(mode) != mode ==> normalized_mode(mode) == "compact"@,
        normalized_mode("compact"@) == "compact"@,
        normalized_mode("detailed"@) == "detailed"@,
{
    reveal_strlit("tr");
    reveal_strlit("tl");
    reveal_strlit("bl");
    reveal_strlit("br");
    reveal_strlit("compact");
}

} // verus!
