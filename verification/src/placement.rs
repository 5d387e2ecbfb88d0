//! Where the widget goes on screen: the origin for a pinned corner, and the
//! corner a dragged window ends up nearest to. Coordinates are physical pixels.
use vstd::prelude::*;
use crate::text::same_text;

verus! {

pub open spec fn in_i32(x: int) -> bool {
    i32::MIN <= x <= i32::MAX
}

/// A monitor's position and size.
#[derive(Clone, Copy, Debug, PartialEq, Eq)]
pub struct Monitor {
    pub x: i32,
    pub y: i32,
    pub width: i32,
    pub height: i32,
}

/// The corner a pinned position refers to: `tl`, `bl`, `br`, and anything else as `tr`.
pub open spec fn corner_kind(corner: Seq<char>) -> int {
    if corner == "tl"@ {
        0
    } else if corner == "bl"@ {
        2
    } else if corner == "br"@ {
        3
    } else {
        1
    }
}

/// Top-left position of a `w` by `h` window pinned to a corner of the monitor,
/// `margin` pixels from its edges and, at the bottom, `bottom` more for a panel.
pub open spec fn corner_origin_spec(corner: Seq<char>, mon: Monitor, w: int, h: int, margin: int, bottom: int) -> (int, int) {
    let k = corner_kind(corner);
    let left = mon.x + margin;
    let right = mon.x + mon.width - w - margin;
    let top = mon.y + margin;
    let low = mon.y + mon.height - h - margin - bottom;
    if k == 0 {
        (left, top)
    } else if k == 2 {
        (left, low)
    } else if k == 3 {
        (right, low)
    } else {
        (right, top)
    }
}

/// Every intermediate sum of the origin computation stays within `i32`.
pub open spec fn corner_origin_fits(corner: Seq<char>, mon: Monitor, w: int, h: int, margin: int, bottom: int) -> bool {
    let k = corner_kind(corner);
    let left_ok = in_i32(mon.x + margin);
    let right_ok = in_i32(mon.x + mon.width) && in_i32(mon.x + mon.width - w) && in_i32(mon.x + mon.width - w - margin);
    let top_ok = in_i32(mon.y + margin);
    let low_ok = in_i32(mon.y + mon.height) && in_i32(mon.y + mon.height - h) && in_i32(mon.y + mon.height - h - margin)
        && in_i32(mon.y + mon.height - h - margin - bottom);
    if k == 0 {
        left_ok && top_ok
    } else if k == 2 {
        left_ok && low_ok
    } else if k == 3 {
        right_ok && low_ok
    } else {
        right_ok && top_ok
    }
}

/// Top-left position of the window pinned to `corner` (see [`corner_origin_spec`]).
pub fn corner_origin(corner: &str, mon: Monitor, w: i32, h: i32, margin: i32, bottom: i32) -> (r: (i32, i32))
    requires
        corner_origin_fits(corner@, mon, w as int, h as int, margin as int, bottom as int),
    ensures
        (r.0 as int, r.1 as int) == corner_origin_spec(corner@, mon, w as int, h as int, margin as int, bottom as int),
{
    if same_text(corner, "tl") {
        (mon.x + margin, mon.y + margin)
    } else if same_text(corner, "bl") {
        (mon.x + margin, mon.y + mon.height - h - margin - bottom)
    } else if same_text(corner, "br") {
        (mon.x + mon.width - w - margin, mon.y + mon.height - h - margin - bottom)
    } else {
        (mon.x + mon.width - w - margin, mon.y + margin)
    }
}

/// [`corner_origin`] for any input: `None` when an intermediate sum of the
/// origin for that corner would leave `i32`.
pub fn checked_corner_origin(corner: &str, mon: Monitor, w: i32, h: i32, margin: i32, bottom: i32) -> (r: Option<(i32, i32)>)
    ensures
        r is None <==> !corner_origin_fits(corner@, mon, w as int, h as int, margin as int, bottom as int),
        r matches Some(p) ==> (p.0 as int, p.1 as int) == corner_origin_spec(
            corner@,
            mon,
            w as int,
            h as int,
            margin as int,
            bottom as int,
        ),
{
    let fits_i32 = |v: i64| -> (b: bool)
        ensures
            b == in_i32(v as int),
        { i32::MIN as i64 <= v && v <= i32::MAX as i64 };
    let (mx, my, mw, mh) = (mon.x as i64, mon.y as i64, mon.width as i64, mon.height as i64);
    let (w, h, margin, bottom) = (w as i64, h as i64, margin as i64, bottom as i64);
    let left_ok = fits_i32(mx + margin);
    let right_ok = fits_i32(mx + mw) && fits_i32(mx + mw - w) && fits_i32(mx + mw - w - margin);
    let top_ok = fits_i32(my + margin);
    let low_ok = fits_i32(my + mh) && fits_i32(my + mh - h) && fits_i32(my + mh - h - margin) && fits_i32(
        my + mh - h - margin - bottom,
    );
    let ok = if same_text(corner, "tl") {
        left_ok && top_ok
    } else if same_text(corner, "bl") {
        left_ok && low_ok
    } else if same_text(corner, "br") {
        right_ok && low_ok
    } else {
        right_ok && top_ok
    };
    if ok {
        Some(corner_origin(corner, mon, w as i32, h as i32, margin as i32, bottom as i32))
    } else {
        None
    }
}

/// Truncating halving, as `i32 / 2` rounds.
pub open spec fn half(x: int) -> int {
    if x >= 0 {
        x / 2
    } else {
        -((-x) / 2)
    }
}

fn half_i32(x: i32) -> (r: i32)
    ensures
        r == half(x as int),
{
    let v = x as i64;
    let h = if v >= 0 {
        v / 2
    } else {
        -((-v) / 2)
    };
    h as i32
}

/// The corner whose quadrant of the monitor holds the window's centre; the
/// centre and the monitor's midlines are found with truncating halves.
pub open spec fn nearest_corner_spec(x: int, y: int, w: int, h: int, mon: Monitor) -> Seq<char> {
    let cx = x + half(w);
    let cy = y + half(h);
    let midx = mon.x + half(mon.width as int);
    let midy = mon.y + half(mon.height as int);
    if cx < midx {
        if cy < midy {
            "tl"@
        } else {
            "bl"@
        }
    } else if cy < midy {
        "tr"@
    } else {
        "br"@
    }
}

/// The centres stay within `i32`.
pub open spec fn nearest_corner_fits(x: int, y: int, w: int, h: int, mon: Monitor) -> bool {
    &&& in_i32(x + half(w))
    &&& in_i32(y + half(h))
    &&& in_i32(mon.x + half(mon.width as int))
    &&& in_i32(mon.y + half(mon.height as int))
}

/// The corner nearest to a window at `(x, y)` of size `w` by `h` (see [`nearest_corner_spec`]).
pub fn nearest_corner(x: i32, y: i32, w: i32, h: i32, mon: Monitor) -> (r: String)
    requires
        nearest_corner_fits(x as int, y as int, w as int, h as int, mon),
    ensures
        r@ == nearest_corner_spec(x as int, y as int, w as int, h as int, mon),
{
    let cx = x + half_i32(w);
    let cy = y + half_i32(h);
    let midx = mon.x + half_i32(mon.width);
    let midy = mon.y + half_i32(mon.height);
    if cx < midx {
        if cy < midy {
            String::from_str("tl")
        } else {
            String::from_str("bl")
        }
    } else if cy < midy {
        String::from_str("tr")
    } else {
        String::from_str("br")
    }
}

/// [`nearest_corner`] for any input: `None` when a centre would leave `i32`.
pub fn checked_nearest_corner(x: i32, y: i32, w: i32, h: i32, mon: Monitor) -> (r: Option<String>)
    ensures
        r is None <==> !nearest_corner_fits(x as int, y as int, w as int, h as int, mon),
        r matches Some(c) ==> c@ == nearest_corner_spec(x as int, y as int, w as int, h as int, mon),
{
    let fits_i32 = |v: i64| -> (b: bool)
        ensures
            b == in_i32(v as int),
        { i32::MIN as i64 <= v && v <= i32::MAX as i64 };
    let ok = fits_i32(x as i64 + half_i32(w) as i64) && fits_i32(y as i64 + half_i32(h) as i64) && fits_i32(
        mon.x as i64 + half_i32(mon.width) as i64,
    ) && fits_i32(mon.y as i64 + half_i32(mon.height) as i64);
    if ok {
        Some(nearest_corner(x, y, w, h, mon))
    } else {
        None
    }
}

/// A window pinned to a corner is found nearest to that same corner, as long
/// as it (with its margins and the bottom panel room) fits in half the monitor.
pub proof fn lemma_pinned_window_is_nearest(corner: Seq<char>, mon: Monitor, w: int, h: int, margin: int, bottom: int)
    requires
        valid_corner_name(corner),
        1 <= w,
        1 <= h,
        0 <= margin,
        0 <= bottom,
        2 * (w + margin) <= mon.width,
        2 * (h + margin + bottom) <= mon.height,
    ensures
        ({
            let (x, y) = corner_origin_spec(corner, mon, w, h, margin, bottom);
            nearest_corner_spec(x, y, w, h, mon) == corner
        }),
{
    reveal_strlit("tl");
    reveal_strlit("tr");
    reveal_strlit("bl");
    reveal_strlit("br");
    assert("tl"@[0] != "bl"@[0]);
    assert("tl"@[0] != "br"@[0]);
    assert("bl"@[1] != "br"@[1]);
    assert("tr"@[1] != "tl"@[1]);
    assert("tr"@[0] != "bl"@[0]);
    assert("tr"@[0] != "br"@[0]);
}

pub open spec fn valid_corner_name(c: Seq<char>) -> bool {
    c == "tl"@ || c == "tr"@ || c == "bl"@ || c == "br"@
}

} // verus!
