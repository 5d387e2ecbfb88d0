//! The pixel canvas behind the tray icon: an RGBA buffer with bounded writes
//! and a 5x7 bitmap font for the percentage digits drawn inside the gauges.
use vstd::prelude::*;
use vstd::arithmetic::div_mod::*;
use vstd::arithmetic::mul::*;
use crate::text::digit_char;

verus! {

/// What a canvas holds: its width and height in pixels and its RGBA bytes,
/// row by row, four bytes per pixel.
pub struct CanvasView {
    pub w: int,
    pub h: int,
    pub bytes: Seq<u8>,
}

/// An RGBA pixel buffer of `w * h` pixels.
pub struct Canvas {
    w: i32,
    h: i32,
    buf: Vec<u8>,
}

impl View for Canvas {
    type V = CanvasView;

    closed spec fn view(&self) -> CanvasView {
        CanvasView { w: self.w as int, h: self.h as int, bytes: self.buf@ }
    }
}

/// Byte `i` (0..4) of a pixel written with colour `c` and alpha `a`.
pub open spec fn channel(c: (u8, u8, u8), a: u8, i: int) -> u8 {
    if i == 0 {
        c.0
    } else if i == 1 {
        c.1
    } else if i == 2 {
        c.2
    } else {
        a
    }
}

/// The canvas after writing pixel `(x, y)`; a pixel outside the canvas is ignored.
pub open spec fn put_view(v: CanvasView, x: int, y: int, c: (u8, u8, u8), a: u8) -> CanvasView {
    if 0 <= x < v.w && 0 <= y < v.h {
        let i = (y * v.w + x) * 4;
        CanvasView {
            w: v.w,
            h: v.h,
            bytes: Seq::new(
                v.bytes.len(),
                |b: int|
                    if i <= b < i + 4 {
                        channel(c, a, b - i)
                    } else {
                        v.bytes[b]
                    },
            ),
        }
    } else {
        v
    }
}

proof fn lemma_pixel_in_buffer(w: int, h: int, x: int, y: int)
    requires
        0 <= x < w,
        0 <= y < h,
    ensures
        0 <= y * w + x,
        y * w + x + 1 <= h * w,
{
    lemma_mul_inequality(y, h - 1, w);
    lemma_mul_is_distributive_sub_other_way(w, h, 1);
    lemma_mul_nonnegative(y, w);
    lemma_mul_is_commutative(h, w);
}


/// The 5x7 bitmap of digit `d`: seven rows, the leftmost column in bit 4.
pub open spec fn glyph_rows(d: int) -> Seq<u8> {
    if d == 0 {
        seq![0b01110u8, 0b10001, 0b10011, 0b10101, 0b11001, 0b10001, 0b01110]
    } else if d == 1 {
        seq![0b00100u8, 0b01100, 0b00100, 0b00100, 0b00100, 0b00100, 0b01110]
    } else if d == 2 {
        seq![0b01110u8, 0b10001, 0b00001, 0b00010, 0b00100, 0b01000, 0b11111]
    } else if d == 3 {
        seq![0b11111u8, 0b00010, 0b00100, 0b00010, 0b00001, 0b10001, 0b01110]
    } else if d == 4 {
        seq![0b00010u8, 0b00110, 0b01010, 0b10010, 0b11111, 0b00010, 0b00010]
    } else if d == 5 {
        seq![0b11111u8, 0b10000, 0b11110, 0b00001, 0b00001, 0b10001, 0b01110]
    } else if d == 6 {
        seq![0b00110u8, 0b01000, 0b10000, 0b11110, 0b10001, 0b10001, 0b01110]
    } else if d == 7 {
        seq![0b11111u8, 0b00001, 0b00010, 0b00100, 0b01000, 0b01000, 0b01000]
    } else if d == 8 {
        seq![0b01110u8, 0b10001, 0b10001, 0b01110, 0b10001, 0b10001, 0b01110]
    } else {
        seq![0b01110u8, 0b10001, 0b10001, 0b01111, 0b00001, 0b00010, 0b01100]
    }
}

/// Whether column `col` (0 = leftmost) of row `row` of digit `d` is lit.
pub open spec fn glyph_bit(d: int, row: int, col: int) -> bool {
    glyph_rows(d)[row] & (1u8 << ((4 - col) as u32)) != 0
}

fn glyph(d: u32) -> (r: Vec<u8>)
    requires
        d < 10,
    ensures
        r@ == glyph_rows(d as int),
{
    let r = if d == 0 {
        vec![0b01110u8, 0b10001, 0b10011, 0b10101, 0b11001, 0b10001, 0b01110]
    } else if d == 1 {
        vec![0b00100u8, 0b01100, 0b00100, 0b00100, 0b00100, 0b00100, 0b01110]
    } else if d == 2 {
        vec![0b01110u8, 0b10001, 0b00001, 0b00010, 0b00100, 0b01000, 0b11111]
    } else if d == 3 {
        vec![0b11111u8, 0b00010, 0b00100, 0b00010, 0b00001, 0b10001, 0b01110]
    } else if d == 4 {
        vec![0b00010u8, 0b00110, 0b01010, 0b10010, 0b11111, 0b00010, 0b00010]
    } else if d == 5 {
        vec![0b11111u8, 0b10000, 0b11110, 0b00001, 0b00001, 0b10001, 0b01110]
    } else if d == 6 {
        vec![0b00110u8, 0b01000, 0b10000, 0b11110, 0b10001, 0b10001, 0b01110]
    } else if d == 7 {
        vec![0b11111u8, 0b00001, 0b00010, 0b00100, 0b01000, 0b01000, 0b01000]
    } else if d == 8 {
        vec![0b01110u8, 0b10001, 0b10001, 0b01110, 0b10001, 0b10001, 0b01110]
    } else {
        vec![0b01110u8, 0b10001, 0b10001, 0b01111, 0b00001, 0b00010, 0b01100]
    };
    assert(r@ =~= glyph_rows(d as int));
    r
}

/// Whether `c` is one of `'0'..='9'`.
pub open spec fn is_digit(c: char) -> bool {
    48 <= (c as int) <= 57
}

/// The value of decimal digit character `c`.
pub open spec fn digit_value(c: char) -> int {
    (c as int) - 48
}

/// The decimal digits of `v`, most significant first, without leading zeros.
pub open spec fn nat_digits(v: nat) -> Seq<char>
    decreases v,
{
    if v < 10 {
        seq![digit_char(v as int)]
    } else {
        nat_digits(v / 10).push(digit_char((v % 10) as int))
    }
}

/// How `n.to_string()` writes a signed integer: a minus sign, then its digits.
pub open spec fn int_text(n: int) -> Seq<char> {
    if n < 0 {
        seq!['-'] + nat_digits((-n) as nat)
    } else {
        nat_digits(n as nat)
    }
}

/// The `k`-th power of ten.
pub open spec fn pow10(k: nat) -> nat
    decreases k,
{
    if k == 0 {
        1
    } else {
        10 * pow10((k - 1) as nat)
    }
}

proof fn lemma_digits_len(v: nat, k: nat)
    requires
        v < pow10(k),
        k >= 1,
    ensures
        1 <= nat_digits(v).len() <= k,
    decreases v,
{
    if v >= 10 {
        assert(k >= 2) by {
            if k == 1 {
                assert(pow10(1) == 10) by {
                    assert(pow10(0) == 1);
                }
            }
        }
        assert(v / 10 < pow10((k - 1) as nat));
        lemma_digits_len(v / 10, (k - 1) as nat);
    }
}

fn push_digits(v: u64, out: &mut Vec<char>)
    ensures
        final(out)@ == old(out)@ + nat_digits(v as nat),
    decreases v,
{
    if v >= 10 {
        push_digits(v / 10, out);
    }
    let d = (v % 10) as u8;
    let c = (d + 48) as char;
    out.push(c);
    proof {
        if v >= 10 {
            assert(old(out)@ + nat_digits(v as nat) =~= old(out)@ + nat_digits((v / 10) as nat) + seq![c]);
        } else {
            assert(old(out)@ + nat_digits(v as nat) =~= old(out)@ + seq![c]);
        }
    }
}

/// The decimal text of `n`, as `n.to_string()` writes it.
pub fn int_label(n: i32) -> (r: Vec<char>)
    ensures
        r@ == int_text(n as int),
        1 <= r@.len() <= 11,
{
    let mut out: Vec<char> = Vec::new();
    proof {
        reveal_with_fuel(pow10, 11);
        assert(pow10(10) == 10_000_000_000);
        let a: int = if n < 0 { -(n as int) } else { n as int };
        lemma_digits_len(a as nat, 10);
    }
    if n < 0 {
        out.push('-');
        let a: u64 = (-(n as i64)) as u64;
        push_digits(a, &mut out);
        assert(out@ =~= int_text(n as int));
    } else {
        push_digits(n as u64, &mut out);
        assert(out@ =~= int_text(n as int));
    }
    out
}


/// Truncating halving, as `i32 / 2` rounds.
pub open spec fn half(x: int) -> int {
    if x >= 0 {
        x / 2
    } else {
        -((-x) / 2)
    }
}

pub open spec fn in_i32(x: int) -> bool {
    i32::MIN <= x <= i32::MAX
}

/// Total width in pixels of a label of `len` glyphs drawn at `scale`.
pub open spec fn text_width(len: int, scale: int) -> int {
    len * (5 * scale) + (len - 1) * scale
}

/// Left edge of the first glyph when a label of `len` glyphs is centred on `cx`.
pub open spec fn label_left(cx: int, len: int, scale: int) -> int {
    cx - half(text_width(len, scale))
}

/// Top edge of the glyphs when centred on `cy`.
pub open spec fn label_top(cy: int, scale: int) -> int {
    cy - half(7 * scale)
}

/// The inputs for which centring and drawing the label of `n` stays within `i32`.
pub open spec fn number_fits(cx: int, cy: int, n: int, scale: int) -> bool {
    let len = int_text(n).len() as int;
    let ox = label_left(cx, len, scale);
    let oy = label_top(cy, scale);
    &&& in_i32(5 * scale)
    &&& in_i32(len * (5 * scale))
    &&& in_i32((len - 1) * scale)
    &&& in_i32(text_width(len, scale))
    &&& in_i32(7 * scale)
    &&& in_i32(6 * scale)
    &&& in_i32(ox)
    &&& in_i32(oy)
    &&& in_i32(ox + len * (6 * scale))
    &&& (scale >= 1 ==> in_i32(oy + 7 * scale))
}

/// Column `c` (0 = leftmost) of a five-column font row `v` is lit exactly when
/// binary digit `4 - c` of `v` is one.
pub proof fn lemma_glyph_bit_is_binary_digit(d: int, row: int, col: int)
    requires
        0 <= row < 7,
        0 <= col < 5,
    ensures
        glyph_bit(d, row, col) == ((glyph_rows(d)[row] as int / vstd::arithmetic::power2::pow2((4 - col) as nat) as int) % 2
            == 1),
{
    vstd::arithmetic::power2::lemma2_to64();
    let v = glyph_rows(d)[row];
    if col == 0 {
        assert((v & (1u8 << 4u32) != 0) == ((v / 16) % 2 == 1)) by (bit_vector);
    } else if col == 1 {
        assert((v & (1u8 << 3u32) != 0) == ((v / 8) % 2 == 1)) by (bit_vector);
    } else if col == 2 {
        assert((v & (1u8 << 2u32) != 0) == ((v / 4) % 2 == 1)) by (bit_vector);
    } else if col == 3 {
        assert((v & (1u8 << 1u32) != 0) == ((v / 2) % 2 == 1)) by (bit_vector);
    } else {
        assert((v & (1u8 << 0u32) != 0) == ((v / 1) % 2 == 1)) by (bit_vector);
    }
}

/// The digit font: the rows of each digit's 5x7 bitmap, top to bottom, as
/// numbers whose binary digits (16 = leftmost column) are the lit cells.
pub proof fn lemma_font_table()
    ensures
        glyph_rows(0) == seq![14u8, 17, 19, 21, 25, 17, 14],
        glyph_rows(1) == seq![4u8, 12, 4, 4, 4, 4, 14],
        glyph_rows(2) == seq![14u8, 17, 1, 2, 4, 8, 31],
        glyph_rows(3) == seq![31u8, 2, 4, 2, 1, 17, 14],
        glyph_rows(4) == seq![2u8, 6, 10, 18, 31, 2, 2],
        glyph_rows(5) == seq![31u8, 16, 30, 1, 1, 17, 14],
        glyph_rows(6) == seq![6u8, 8, 16, 30, 17, 17, 14],
        glyph_rows(7) == seq![31u8, 1, 2, 4, 8, 8, 8],
        glyph_rows(8) == seq![14u8, 17, 17, 14, 17, 17, 14],
        glyph_rows(9) == seq![14u8, 17, 17, 15, 1, 2, 12],
{
}

/// A single digit drawn at scale 1 with its top-left corner at `(ox, oy)`
/// lights exactly the cells of its 5x7 bitmap: pixel `(ox + c, oy + r)` for
/// the lit cells `(r, c)`, and nothing outside the 5 by 7 box.
pub proof fn lemma_single_digit_pixels(n: int, ox: int, oy: int, x: int, y: int)
    requires
        0 <= n <= 9,
    ensures
        int_text(n) == seq![digit_char(n)],
        glyph_covers(int_text(n), ox, oy, 1, x, y) == (0 <= x - ox < 5 && 0 <= y - oy < 7 && glyph_bit(
            n,
            y - oy,
            x - ox,
        )),
{
    let label = int_text(n);
    assert(label =~= seq![digit_char(n)]);
    assert(digit_value(label[0]) == n);
    let dx = x - ox;
    if 0 <= dx < 6 {
        assert(dx / 6 == 0 && dx % 6 == dx);
    } else if dx >= 6 {
        assert(dx / 6 >= 1);
    }
    assert((y - oy) / 1 == y - oy);
    assert(dx % 6 / 1 == dx % 6);
}

/// A label of `len` glyphs at `scale` is `5 * scale` pixels per glyph with
/// `scale` pixels between glyphs, and it is centred on `(cx, cy)`: the room
/// left of the centre and right of it differ by at most one pixel, and so do
/// the rooms above and below (7 * scale pixels tall).
pub proof fn lemma_label_centred(cx: int, cy: int, len: int, scale: int)
    requires
        len >= 1,
        scale >= 1,
    ensures
        text_width(len, scale) == len * (6 * scale) - scale,
        0 <= (label_left(cx, len, scale) + text_width(len, scale) - cx) - (cx - label_left(cx, len, scale)) <= 1,
        0 <= (label_top(cy, scale) + 7 * scale - cy) - (cy - label_top(cy, scale)) <= 1,
{
    assert(text_width(len, scale) == len * (6 * scale) - scale) by (nonlinear_arith)
        requires
            text_width(len, scale) == len * (5 * scale) + (len - 1) * scale,
    ;
    assert(len * (6 * scale) - scale >= 0) by (nonlinear_arith)
        requires
            len >= 1,
            scale >= 1,
    ;
}

/// At any scale, each font cell `(r, c)` of a single digit is a `scale` by
/// `scale` block: every pixel of the block is lit exactly when the cell is.
pub proof fn lemma_scaled_digit_block(n: int, ox: int, oy: int, s: int, r: int, c: int, sy: int, sx: int)
    requires
        0 <= n <= 9,
        s >= 1,
        0 <= r < 7,
        0 <= c < 5,
        0 <= sy < s,
        0 <= sx < s,
    ensures
        glyph_covers(int_text(n), ox, oy, s, ox + c * s + sx, oy + r * s + sy) == glyph_bit(n, r, c),
{
    let label = int_text(n);
    assert(label =~= seq![digit_char(n)]);
    assert(digit_value(label[0]) == n);
    lemma_decomp_of_placed(ox, oy, s, 0, r, c, sy, sx);
    assert(0 <= c * s + sx) by (nonlinear_arith)
        requires
            0 <= c,
            0 <= sx,
            s >= 1,
    ;
    assert(0 <= r * s + sy) by (nonlinear_arith)
        requires
            0 <= r,
            0 <= sy,
            s >= 1,
    ;
    assert(ox + 0 * (6 * s) + c * s + sx == ox + c * s + sx);
}

/// Whether pixel `(x, y)` is lit when `label` is drawn with its top-left corner at
/// `(ox, oy)`: glyph cells are `6 * scale` wide (five columns and one of spacing),
/// each font pixel is a `scale` by `scale` block, and only digits are drawn.
pub open spec fn glyph_covers(label: Seq<char>, ox: int, oy: int, scale: int, x: int, y: int) -> bool {
    let dx = x - ox;
    let dy = y - oy;
    let cell = 6 * scale;
    &&& scale >= 1
    &&& dx >= 0
    &&& dy >= 0
    &&& dx / cell < label.len()
    &&& dx % cell < 5 * scale
    &&& dy / scale < 7
    &&& is_digit(label[dx / cell])
    &&& glyph_bit(digit_value(label[dx / cell]), dy / scale, (dx % cell) / scale)
}

/// Whether byte `b` of the canvas belongs to a pixel lit by the label.
pub open spec fn lit_byte(v: CanvasView, label: Seq<char>, ox: int, oy: int, scale: int, b: int) -> bool {
    &&& v.w > 0
    &&& v.h > 0
    &&& glyph_covers(label, ox, oy, scale, (b / 4) % v.w, (b / 4) / v.w)
}

/// The canvas after drawing the decimal text of `n` centred on `(cx, cy)`.
pub open spec fn number_view(v: CanvasView, cx: int, cy: int, n: int, scale: int, color: (u8, u8, u8)) -> CanvasView {
    let label = int_text(n);
    let ox = label_left(cx, label.len() as int, scale);
    let oy = label_top(cy, scale);
    CanvasView {
        w: v.w,
        h: v.h,
        bytes: Seq::new(
            v.bytes.len(),
            |b: int|
                if lit_byte(v, label, ox, oy, scale, b) {
                    channel(color, 255, b % 4)
                } else {
                    v.bytes[b]
                },
        ),
    }
}

/// Position of a font pixel within the drawing: (glyph, row, column, sub-row, sub-column).
pub open spec fn decomp(ox: int, oy: int, scale: int, x: int, y: int) -> (int, int, int, int, int) {
    let dx = x - ox;
    let dy = y - oy;
    let cell = 6 * scale;
    (dx / cell, dy / scale, (dx % cell) / scale, dy % scale, (dx % cell) % scale)
}

pub open spec fn lexless(a: (int, int, int, int, int), b: (int, int, int, int, int)) -> bool {
    ||| a.0 < b.0
    ||| a.0 == b.0 && a.1 < b.1
    ||| a.0 == b.0 && a.1 == b.1 && a.2 < b.2
    ||| a.0 == b.0 && a.1 == b.1 && a.2 == b.2 && a.3 < b.3
    ||| a.0 == b.0 && a.1 == b.1 && a.2 == b.2 && a.3 == b.3 && a.4 < b.4
}

/// Byte `b` has been lit by the writes made before position `pr` of the drawing loops.
pub open spec fn lit_before(
    v: CanvasView,
    label: Seq<char>,
    ox: int,
    oy: int,
    scale: int,
    b: int,
    pr: (int, int, int, int, int),
) -> bool {
    &&& lit_byte(v, label, ox, oy, scale, b)
    &&& lexless(decomp(ox, oy, scale, (b / 4) % v.w, (b / 4) / v.w), pr)
}

pub open spec fn progress_bytes(
    v: CanvasView,
    label: Seq<char>,
    ox: int,
    oy: int,
    scale: int,
    color: (u8, u8, u8),
    pr: (int, int, int, int, int),
) -> Seq<u8> {
    Seq::new(
        v.bytes.len(),
        |b: int|
            if lit_before(v, label, ox, oy, scale, b, pr) {
                channel(color, 255, b % 4)
            } else {
                v.bytes[b]
            },
    )
}

/// A font pixel placed at position (k, row, col, sy, sx) decomposes back to it.
proof fn lemma_decomp_of_placed(
    ox: int,
    oy: int,
    s: int,
    k: int,
    row: int,
    col: int,
    sy: int,
    sx: int,
)
    requires
        s >= 1,
        k >= 0,
        row >= 0,
        0 <= col < 5,
        0 <= sy < s,
        0 <= sx < s,
    ensures
        decomp(ox, oy, s, ox + k * (6 * s) + col * s + sx, oy + row * s + sy) == (k, row, col, sy, sx),
        (ox + k * (6 * s) + col * s + sx - ox) % (6 * s) < 5 * s,
{
    let cell = 6 * s;
    let r = col * s + sx;
    assert(0 <= r < 5 * s) by (nonlinear_arith)
        requires
            0 <= col < 5,
            0 <= sx < s,
            r == col * s + sx,
    ;
    lemma_fundamental_div_mod_converse(k * cell + r, cell, k, r);
    lemma_fundamental_div_mod_converse(r, s, col, sx);
    lemma_fundamental_div_mod_converse(row * s + sy, s, row, sy);
    lemma_mul_is_commutative(k, cell);
    lemma_mul_is_commutative(col, s);
    lemma_mul_is_commutative(row, s);
}

/// A pixel of the drawing is rebuilt from its decomposition.
proof fn lemma_rebuild(ox: int, oy: int, s: int, x: int, y: int)
    requires
        s >= 1,
        x - ox >= 0,
        y - oy >= 0,
    ensures
        ({
            let d = decomp(ox, oy, s, x, y);
            &&& x == ox + d.0 * (6 * s) + d.2 * s + d.4
            &&& y == oy + d.1 * s + d.3
            &&& d.0 >= 0 && d.1 >= 0 && d.2 >= 0
            &&& 0 <= d.3 < s
            &&& 0 <= d.4 < s
            &&& ((x - ox) % (6 * s) < 5 * s ==> d.2 < 5)
        }),
{
    let cell = 6 * s;
    let dx = x - ox;
    let dy = y - oy;
    lemma_fundamental_div_mod(dx, cell);
    lemma_fundamental_div_mod(dx % cell, s);
    lemma_fundamental_div_mod(dy, s);
    lemma_mod_pos_bound(dx, cell);
    lemma_mod_pos_bound(dx % cell, s);
    lemma_mod_pos_bound(dy, s);
    lemma_div_pos_is_pos(dx, cell);
    lemma_div_pos_is_pos(dx % cell, s);
    lemma_div_pos_is_pos(dy, s);
    lemma_mul_is_commutative(cell, dx / cell);
    lemma_mul_is_commutative(s, (dx % cell) / s);
    lemma_mul_is_commutative(s, dy / s);
    if dx % cell < 5 * s {
        let c = (dx % cell) / s;
        assert(c < 5) by (nonlinear_arith)
            requires
                s * c + (dx % cell) % s == dx % cell,
                dx % cell < 5 * s,
                (dx % cell) % s >= 0,
                s >= 1,
        ;
    }
}

/// The bytes of pixel `(x, y)` are exactly those whose pixel index maps back to it.
proof fn lemma_pixel_bytes(w: int, h: int, x: int, y: int, b: int)
    requires
        0 <= x < w,
        0 <= y < h,
        0 <= b,
    ensures
        ((y * w + x) * 4 <= b < (y * w + x) * 4 + 4) <==> ((b / 4) % w == x && (b / 4) / w == y),
        ((y * w + x) * 4 <= b < (y * w + x) * 4 + 4) ==> b % 4 == b - (y * w + x) * 4,
{
    let p = y * w + x;
    lemma_fundamental_div_mod(b, 4);
    lemma_mod_pos_bound(b, 4);
    lemma_div_pos_is_pos(b, 4);
    lemma_fundamental_div_mod(b / 4, w);
    lemma_mod_pos_bound(b / 4, w);
    if (y * w + x) * 4 <= b < (y * w + x) * 4 + 4 {
        lemma_fundamental_div_mod_converse(b, 4, p, b - p * 4);
        lemma_fundamental_div_mod_converse(p, w, y, x);
    }
    if (b / 4) % w == x && (b / 4) / w == y {
        lemma_mul_is_commutative(w, y);
    }
}


proof fn lemma_progress_eq(
    v: CanvasView,
    label: Seq<char>,
    ox: int,
    oy: int,
    s: int,
    color: (u8, u8, u8),
    pr1: (int, int, int, int, int),
    pr2: (int, int, int, int, int),
)
    requires
        forall|b: int|
            0 <= b < v.bytes.len() && #[trigger] lit_byte(v, label, ox, oy, s, b) ==> (lexless(
                decomp(ox, oy, s, (b / 4) % v.w, (b / 4) / v.w),
                pr1,
            ) == lexless(decomp(ox, oy, s, (b / 4) % v.w, (b / 4) / v.w), pr2)),
    ensures
        progress_bytes(v, label, ox, oy, s, color, pr1) == progress_bytes(v, label, ox, oy, s, color, pr2),
{
    assert(progress_bytes(v, label, ox, oy, s, color, pr1) =~= progress_bytes(v, label, ox, oy, s, color, pr2));
}

/// Facts about the decomposition of a lit byte's pixel.
proof fn lemma_lit_decomp(v: CanvasView, label: Seq<char>, ox: int, oy: int, s: int, b: int)
    requires
        0 <= b,
        lit_byte(v, label, ox, oy, s, b),
    ensures
        ({
            let x = (b / 4) % v.w;
            let y = (b / 4) / v.w;
            let d = decomp(ox, oy, s, x, y);
            &&& x == ox + d.0 * (6 * s) + d.2 * s + d.4
            &&& y == oy + d.1 * s + d.3
            &&& 0 <= d.0 < label.len()
            &&& 0 <= d.1 < 7
            &&& 0 <= d.2 < 5
            &&& 0 <= d.3 < s
            &&& 0 <= d.4 < s
            &&& is_digit(label[d.0])
            &&& glyph_bit(digit_value(label[d.0]), d.1, d.2)
            &&& 0 <= x < v.w
            &&& 0 <= y
        }),
{
    let x = (b / 4) % v.w;
    let y = (b / 4) / v.w;
    lemma_rebuild(ox, oy, s, x, y);
    lemma_mod_pos_bound(b / 4, v.w);
    lemma_div_pos_is_pos(b, 4);
    lemma_div_pos_is_pos(b / 4, v.w);
}

proof fn lemma_put_step(
    v: CanvasView,
    label: Seq<char>,
    ox: int,
    oy: int,
    s: int,
    color: (u8, u8, u8),
    k: int,
    row: int,
    col: int,
    sy: int,
    sx: int,
)
    requires
        v.bytes.len() == v.w * v.h * 4,
        s >= 1,
        0 <= k < label.len(),
        is_digit(label[k]),
        0 <= row < 7,
        0 <= col < 5,
        glyph_bit(digit_value(label[k]), row, col),
        0 <= sy < s,
        0 <= sx < s,
    ensures
        put_view(
            CanvasView { w: v.w, h: v.h, bytes: progress_bytes(v, label, ox, oy, s, color, (k, row, col, sy, sx)) },
            ox + k * (6 * s) + col * s + sx,
            oy + row * s + sy,
            color,
            255,
        ).bytes == progress_bytes(v, label, ox, oy, s, color, (k, row, col, sy, sx + 1)),
{
    let x = ox + k * (6 * s) + col * s + sx;
    let y = oy + row * s + sy;
    let pr = (k, row, col, sy, sx);
    let pr2 = (k, row, col, sy, sx + 1);
    let cur = CanvasView { w: v.w, h: v.h, bytes: progress_bytes(v, label, ox, oy, s, color, pr) };
    let next = progress_bytes(v, label, ox, oy, s, color, pr2);
    lemma_decomp_of_placed(ox, oy, s, k, row, col, sy, sx);
    assert(0 <= k * (6 * s)) by (nonlinear_arith)
        requires
            k >= 0,
            s >= 1,
    ;
    assert(0 <= col * s) by (nonlinear_arith)
        requires
            col >= 0,
            s >= 1,
    ;
    assert(0 <= row * s) by (nonlinear_arith)
        requires
            row >= 0,
            s >= 1,
    ;
    if 0 <= x < v.w && 0 <= y < v.h {
        assert forall|b: int| 0 <= b < v.bytes.len() implies #[trigger] put_view(cur, x, y, color, 255).bytes[b]
            == next[b] by {
            lemma_pixel_bytes(v.w, v.h, x, y, b);
            if (y * v.w + x) * 4 <= b < (y * v.w + x) * 4 + 4 {
                assert(glyph_covers(label, ox, oy, s, x, y));
            } else {
                if lit_byte(v, label, ox, oy, s, b) {
                    lemma_lit_decomp(v, label, ox, oy, s, b);
                }
            }
        }
        assert(put_view(cur, x, y, color, 255).bytes =~= next);
    } else {
        assert forall|b: int| 0 <= b < v.bytes.len() implies #[trigger] cur.bytes[b] == next[b] by {
            if lit_byte(v, label, ox, oy, s, b) {
                lemma_lit_decomp(v, label, ox, oy, s, b);
                lemma_div_pos_is_pos(b, 4);
                lemma_div_pos_is_pos(b / 4, v.w);
                let p = b / 4;
                lemma_fundamental_div_mod(p, v.w);
                assert(b < v.w * v.h * 4);
                assert(p / v.w < v.h) by (nonlinear_arith)
                    requires
                        0 <= b < v.w * v.h * 4,
                        p == b / 4,
                        v.w > 0,
                        p >= 0,
                        v.w * (p / v.w) + p % v.w == p,
                        p % v.w >= 0,
                        b == 4 * (b / 4) + b % 4,
                        b % 4 >= 0,
                ;
            }
        }
        assert(cur.bytes =~= next);
    }
}

/// Whether [`Canvas::number`] may be called with these arguments (see [`number_fits`]).
pub fn check_number_fits(cx: i32, cy: i32, n: i32, scale: i32) -> (r: bool)
    ensures
        r == number_fits(cx as int, cy as int, n as int, scale as int),
{
    let label = int_label(n);
    let len = label.len() as i128;
    let s = scale as i128;
    let lo = i32::MIN as i128;
    let hi = i32::MAX as i128;
    let gw = 5 * s;
    proof {
        assert(-0x100_0000_0000i128 <= len * gw <= 0x100_0000_0000i128) by (nonlinear_arith)
            requires
                1 <= len <= 11,
                -0x2_8000_0000i128 <= gw <= 0x2_8000_0000i128,
        ;
        assert(-0x100_0000_0000i128 <= (len - 1) * s <= 0x100_0000_0000i128) by (nonlinear_arith)
            requires
                0 <= len - 1 <= 10,
                -0x8000_0000i128 <= s <= 0x8000_0000i128,
        ;
        assert(-0x100_0000_0000i128 <= len * (6 * s) <= 0x100_0000_0000i128) by (nonlinear_arith)
            requires
                1 <= len <= 11,
                -0x8000_0000i128 <= s <= 0x8000_0000i128,
        ;
    }
    let tw = len * gw + (len - 1) * s;
    let half_tw = if tw >= 0 {
        tw / 2
    } else {
        -((-tw) / 2)
    };
    let th = 7 * s;
    let half_th = if th >= 0 {
        th / 2
    } else {
        -((-th) / 2)
    };
    let ox = cx as i128 - half_tw;
    let oy = cy as i128 - half_th;
    let fits = |x: i128| -> (b: bool)
        ensures
            b == in_i32(x as int),
        { lo <= x && x <= hi };
    fits(gw) && fits(len * gw) && fits((len - 1) * s) && fits(tw) && fits(th) && fits(6 * s) && fits(ox)
        && fits(oy) && fits(ox + len * (6 * s)) && (s < 1 || fits(oy + th))
}

impl Canvas {
    /// The invariant: the buffer holds four bytes for each of the `w * h` pixels.
    pub closed spec fn wf(&self) -> bool {
        &&& 0 <= self.w * self.h * 4 <= i32::MAX
        &&& self.buf@.len() == self.w * self.h * 4
    }

    /// A well-formed canvas holds four bytes for each of its `w * h` pixels,
    /// and that many bytes fit in an `i32`.
    pub proof fn lemma_wf_size(&self)
        requires
            self.wf(),
        ensures
            self@.bytes.len() == self@.w * self@.h * 4,
            0 <= self@.w * self@.h * 4 <= i32::MAX,
    {
    }

    /// A transparent black canvas of `w` by `h` pixels.
    pub fn new(w: i32, h: i32) -> (c: Canvas)
        requires
            0 <= w * h * 4 <= i32::MAX,
        ensures
            c.wf(),
            c@.w == w,
            c@.h == h,
            c@.bytes == Seq::new((w * h * 4) as nat, |i: int| 0u8),
    {
        assert(-0x8000_0000 <= w * h <= 0x7fff_ffff) by (nonlinear_arith)
            requires
                0 <= w * h * 4 <= i32::MAX,
        ;
        let n = w * h * 4;
        let buf: Vec<u8> = vec![0u8; n as usize];
        let c = Canvas { w, h, buf };
        assert(c@.bytes =~= Seq::new((w * h * 4) as nat, |i: int| 0u8));
        c
    }

    /// Width in pixels.
    pub fn width(&self) -> (r: i32)
        ensures
            r == self@.w,
    {
        self.w
    }

    /// Height in pixels.
    pub fn height(&self) -> (r: i32)
        ensures
            r == self@.h,
    {
        self.h
    }

    /// The RGBA bytes, handing over the buffer.
    pub fn into_bytes(self) -> (r: Vec<u8>)
        ensures
            r@ == self@.bytes,
    {
        self.buf
    }

    /// Writes colour `c` with alpha `a` at pixel `(x, y)`; outside the canvas nothing happens.
    pub fn put(&mut self, x: i32, y: i32, c: (u8, u8, u8), a: u8)
        requires
            old(self).wf(),
        ensures
            final(self).wf(),
            final(self)@ == put_view(old(self)@, x as int, y as int, c, a),
    {
        if x < 0 || y < 0 || x >= self.w || y >= self.h {
            return;
        }
        proof {
            lemma_pixel_in_buffer(self.w as int, self.h as int, x as int, y as int);
            lemma_mul_is_commutative(self.h as int, self.w as int);
        }
        let ghost v = self@;
        let i = ((y * self.w + x) * 4) as usize;
        self.buf.set(i, c.0);
        self.buf.set(i + 1, c.1);
        self.buf.set(i + 2, c.2);
        self.buf.set(i + 3, a);
        assert(self@.bytes =~= put_view(v, x as int, y as int, c, a).bytes);
    }

    /// Draws the decimal text of `n` (as `n.to_string()` writes it) centred on
    /// `(cx, cy)`, each font pixel a `scale` by `scale` block of `color`; a
    /// minus sign takes a glyph's room but is not drawn, and pixels falling
    /// outside the canvas are dropped.
    pub fn number(&mut self, cx: i32, cy: i32, n: i32, scale: i32, color: (u8, u8, u8))
        requires
            old(self).wf(),
            number_fits(cx as int, cy as int, n as int, scale as int),
        ensures
            final(self).wf(),
            final(self)@ == number_view(old(self)@, cx as int, cy as int, n as int, scale as int, color),
    {
        let ghost v0 = self@;
        let label = int_label(n);
        let ghost lab = label@;
        if scale <= 0 {
            let ghost nv = number_view(v0, cx as int, cy as int, n as int, scale as int, color);
            assert(self@.bytes =~= nv.bytes);
            return;
        }
        let len = label.len();
        let leni = len as i32;
        proof {
            assert(leni * (5 * scale) + (leni - 1) * scale >= 0) by (nonlinear_arith)
                requires
                    leni >= 1,
                    scale >= 1,
            ;
        }
        let glyph_w = 5 * scale;
        let spacing = scale;
        let text_w = leni * glyph_w + (leni - 1) * spacing;
        let text_h = 7 * scale;
        let mut ox = cx - text_w / 2;
        let oy = cy - text_h / 2;
        let ghost ox0 = ox as int;
        let ghost s = scale as int;
        assert(ox0 == label_left(cx as int, lab.len() as int, s));
        assert(oy == label_top(cy as int, s));
        proof {
            assert(self@.bytes =~= progress_bytes(v0, lab, ox0, oy as int, s, color, (0, 0, 0, 0, 0)));
        }
        let mut k: usize = 0;
        while k < len
            invariant
                self.wf(),
                label@ == lab,
                lab.len() == len,
                1 <= len <= 11,
                leni == len,
                s == scale,
                scale >= 1,
                glyph_w == 5 * scale,
                spacing == scale,
                0 <= k <= len,
                ox == ox0 + k * (6 * s),
                in_i32(ox0),
                in_i32(oy as int),
                in_i32(ox0 + len * (6 * s)),
                in_i32(oy + 7 * s),
                7 * s <= i32::MAX,
                v0.bytes.len() == v0.w * v0.h * 4,
                self@ == (CanvasView {
                    w: v0.w,
                    h: v0.h,
                    bytes: progress_bytes(v0, lab, ox0, oy as int, s, color, (k as int, 0, 0, 0, 0)),
                }),
            decreases len - k,
        {
            assert(ox + 6 * s <= ox0 + len * (6 * s)) by (nonlinear_arith)
                requires
                    ox == ox0 + k * (6 * s),
                    k < len,
                    s >= 1,
            ;
            let ch = label[k];
            if ch >= '0' && ch <= '9' {
                let d = (ch as u32) - 48;
                let pattern = glyph(d);
                let mut row: usize = 0;
                while row < 7
                    invariant
                        self.wf(),
                        label@ == lab,
                        lab.len() == len,
                        s == scale,
                        scale >= 1,
                        0 <= k < len,
                        is_digit(lab[k as int]),
                        d == digit_value(lab[k as int]),
                        pattern@ == glyph_rows(d as int),
                        0 <= row <= 7,
                        ox == ox0 + k * (6 * s),
                        in_i32(ox0),
                        in_i32(oy as int),
                        ox + 6 * s <= ox0 + len * (6 * s),
                        in_i32(ox0 + len * (6 * s)),
                        in_i32(oy + 7 * s),
                        7 * s <= i32::MAX,
                7 * s <= i32::MAX,
                        v0.bytes.len() == v0.w * v0.h * 4,
                        self@ == (CanvasView {
                            w: v0.w,
                            h: v0.h,
                            bytes: progress_bytes(v0, lab, ox0, oy as int, s, color, (k as int, row as int, 0, 0, 0)),
                        }),
                    decreases 7 - row,
                {
                    let bits = pattern[row];
                    let mut col: i32 = 0;
                    while col < 5
                        invariant
                            self.wf(),
                            label@ == lab,
                            lab.len() == len,
                            s == scale,
                            scale >= 1,
                            0 <= k < len,
                            is_digit(lab[k as int]),
                            d == digit_value(lab[k as int]),
                            pattern@ == glyph_rows(d as int),
                            bits == glyph_rows(d as int)[row as int],
                            0 <= row < 7,
                            0 <= col <= 5,
                            ox == ox0 + k * (6 * s),
                            in_i32(ox0),
                            in_i32(oy as int),
                            ox + 6 * s <= ox0 + len * (6 * s),
                            in_i32(ox0 + len * (6 * s)),
                            in_i32(oy + 7 * s),
                            7 * s <= i32::MAX,
                        7 * s <= i32::MAX,
                7 * s <= i32::MAX,
                            v0.bytes.len() == v0.w * v0.h * 4,
                            self@ == (CanvasView {
                                w: v0.w,
                                h: v0.h,
                                bytes: progress_bytes(
                                    v0,
                                    lab,
                                    ox0,
                                    oy as int,
                                    s,
                                    color,
                                    (k as int, row as int, col as int, 0, 0),
                                ),
                            }),
                        decreases 5 - col,
                    {
                        if bits & (1u8 << ((4 - col) as u32)) != 0 {
                            assert(glyph_bit(d as int, row as int, col as int));
                            let mut sy: i32 = 0;
                            while sy < scale
                                invariant
                                    self.wf(),
                                    label@ == lab,
                                    lab.len() == len,
                                    s == scale,
                                    scale >= 1,
                                    0 <= k < len,
                                    is_digit(lab[k as int]),
                                    d == digit_value(lab[k as int]),
                                    0 <= row < 7,
                                    0 <= col < 5,
                                    glyph_bit(d as int, row as int, col as int),
                                    0 <= sy <= scale,
                                    ox == ox0 + k * (6 * s),
                                    in_i32(ox0),
                                    in_i32(oy as int),
                                    ox + 6 * s <= ox0 + len * (6 * s),
                                    in_i32(ox0 + len * (6 * s)),
                                    in_i32(oy + 7 * s),
                                    7 * s <= i32::MAX,
                            7 * s <= i32::MAX,
                        7 * s <= i32::MAX,
                7 * s <= i32::MAX,
                                    v0.bytes.len() == v0.w * v0.h * 4,
                                    self@ == (CanvasView {
                                        w: v0.w,
                                        h: v0.h,
                                        bytes: progress_bytes(
                                            v0,
                                            lab,
                                            ox0,
                                            oy as int,
                                            s,
                                            color,
                                            (k as int, row as int, col as int, sy as int, 0),
                                        ),
                                    }),
                                decreases scale - sy,
                            {
                                let mut sx: i32 = 0;
                                while sx < scale
                                    invariant
                                        self.wf(),
                                        label@ == lab,
                                        lab.len() == len,
                                        s == scale,
                                        scale >= 1,
                                        0 <= k < len,
                                        is_digit(lab[k as int]),
                                        d == digit_value(lab[k as int]),
                                        0 <= row < 7,
                                        0 <= col < 5,
                                        glyph_bit(d as int, row as int, col as int),
                                        0 <= sy < scale,
                                        0 <= sx <= scale,
                                        ox == ox0 + k * (6 * s),
                                        in_i32(ox0),
                                        in_i32(oy as int),
                                        ox + 6 * s <= ox0 + len * (6 * s),
                                        in_i32(ox0 + len * (6 * s)),
                                        in_i32(oy + 7 * s),
                                        7 * s <= i32::MAX,
                                    7 * s <= i32::MAX,
                            7 * s <= i32::MAX,
                        7 * s <= i32::MAX,
                7 * s <= i32::MAX,
                                        v0.bytes.len() == v0.w * v0.h * 4,
                                        self@ == (CanvasView {
                                            w: v0.w,
                                            h: v0.h,
                                            bytes: progress_bytes(
                                                v0,
                                                lab,
                                                ox0,
                                                oy as int,
                                                s,
                                                color,
                                                (k as int, row as int, col as int, sy as int, sx as int),
                                            ),
                                        }),
                                    decreases scale - sx,
                                {
                                    assert(ox + col * scale + sx < ox + 6 * s && 0 <= col * scale + sx && col * scale <= 4 * s) by (nonlinear_arith)
                                        requires
                                            0 <= col < 5,
                                            0 <= sx < scale,
                                            s == scale,
                                    ;
                                    assert(row * scale + sy < 7 * s && 0 <= row * scale + sy && row * scale <= 6 * s) by (nonlinear_arith)
                                        requires
                                            0 <= row < 7,
                                            0 <= sy < scale,
                                            s == scale,
                                    ;
                                    let x = ox + col * scale + sx;
                                    let y = oy + (row as i32) * scale + sy;
                                    proof {
                                        lemma_put_step(v0, lab, ox0, oy as int, s, color, k as int, row as int, col as int, sy as int, sx as int);
                                    }
                                    self.put(x, y, color, 255);
                                    sx += 1;
                                }
                                proof {
                                    assert forall|b: int|
                                        0 <= b < v0.bytes.len() && #[trigger] lit_byte(v0, lab, ox0, oy as int, s, b) implies (lexless(
                                        decomp(ox0, oy as int, s, (b / 4) % v0.w, (b / 4) / v0.w),
                                        (k as int, row as int, col as int, sy as int, s),
                                    ) == lexless(
                                        decomp(ox0, oy as int, s, (b / 4) % v0.w, (b / 4) / v0.w),
                                        (k as int, row as int, col as int, sy + 1, 0),
                                    )) by {
                                        lemma_lit_decomp(v0, lab, ox0, oy as int, s, b);
                                    }
                                    lemma_progress_eq(v0, lab, ox0, oy as int, s, color,
                                        (k as int, row as int, col as int, sy as int, s),
                                        (k as int, row as int, col as int, sy + 1, 0));
                                }
                                sy += 1;
                            }
                            proof {
                                assert forall|b: int|
                                    0 <= b < v0.bytes.len() && #[trigger] lit_byte(v0, lab, ox0, oy as int, s, b) implies (lexless(
                                    decomp(ox0, oy as int, s, (b / 4) % v0.w, (b / 4) / v0.w),
                                    (k as int, row as int, col as int, s, 0),
                                ) == lexless(
                                    decomp(ox0, oy as int, s, (b / 4) % v0.w, (b / 4) / v0.w),
                                    (k as int, row as int, col + 1, 0, 0),
                                )) by {
                                    lemma_lit_decomp(v0, lab, ox0, oy as int, s, b);
                                }
                                lemma_progress_eq(v0, lab, ox0, oy as int, s, color,
                                    (k as int, row as int, col as int, s, 0),
                                    (k as int, row as int, col + 1, 0, 0));
                            }
                        } else {
                            proof {
                                assert(!glyph_bit(d as int, row as int, col as int));
                                assert forall|b: int|
                                    0 <= b < v0.bytes.len() && #[trigger] lit_byte(v0, lab, ox0, oy as int, s, b) implies (lexless(
                                    decomp(ox0, oy as int, s, (b / 4) % v0.w, (b / 4) / v0.w),
                                    (k as int, row as int, col as int, 0, 0),
                                ) == lexless(
                                    decomp(ox0, oy as int, s, (b / 4) % v0.w, (b / 4) / v0.w),
                                    (k as int, row as int, col + 1, 0, 0),
                                )) by {
                                    lemma_lit_decomp(v0, lab, ox0, oy as int, s, b);
                                }
                                lemma_progress_eq(v0, lab, ox0, oy as int, s, color,
                                    (k as int, row as int, col as int, 0, 0),
                                    (k as int, row as int, col + 1, 0, 0));
                            }
                        }
                        col += 1;
                    }
                    proof {
                        assert forall|b: int|
                            0 <= b < v0.bytes.len() && #[trigger] lit_byte(v0, lab, ox0, oy as int, s, b) implies (lexless(
                            decomp(ox0, oy as int, s, (b / 4) % v0.w, (b / 4) / v0.w),
                            (k as int, row as int, 5, 0, 0),
                        ) == lexless(
                            decomp(ox0, oy as int, s, (b / 4) % v0.w, (b / 4) / v0.w),
                            (k as int, row + 1, 0, 0, 0),
                        )) by {
                            lemma_lit_decomp(v0, lab, ox0, oy as int, s, b);
                        }
                        lemma_progress_eq(v0, lab, ox0, oy as int, s, color,
                            (k as int, row as int, 5, 0, 0),
                            (k as int, row + 1, 0, 0, 0));
                    }
                    row += 1;
                }
                proof {
                    assert forall|b: int|
                        0 <= b < v0.bytes.len() && #[trigger] lit_byte(v0, lab, ox0, oy as int, s, b) implies (lexless(
                        decomp(ox0, oy as int, s, (b / 4) % v0.w, (b / 4) / v0.w),
                        (k as int, 7, 0, 0, 0),
                    ) == lexless(
                        decomp(ox0, oy as int, s, (b / 4) % v0.w, (b / 4) / v0.w),
                        (k + 1, 0, 0, 0, 0),
                    )) by {
                        lemma_lit_decomp(v0, lab, ox0, oy as int, s, b);
                    }
                    lemma_progress_eq(v0, lab, ox0, oy as int, s, color,
                        (k as int, 7, 0, 0, 0),
                        (k + 1, 0, 0, 0, 0));
                }
            } else {
                proof {
                    assert(!is_digit(lab[k as int]));
                    assert forall|b: int|
                        0 <= b < v0.bytes.len() && #[trigger] lit_byte(v0, lab, ox0, oy as int, s, b) implies (lexless(
                        decomp(ox0, oy as int, s, (b / 4) % v0.w, (b / 4) / v0.w),
                        (k as int, 0, 0, 0, 0),
                    ) == lexless(
                        decomp(ox0, oy as int, s, (b / 4) % v0.w, (b / 4) / v0.w),
                        (k + 1, 0, 0, 0, 0),
                    )) by {
                        lemma_lit_decomp(v0, lab, ox0, oy as int, s, b);
                    }
                    lemma_progress_eq(v0, lab, ox0, oy as int, s, color,
                        (k as int, 0, 0, 0, 0),
                        (k + 1, 0, 0, 0, 0));
                }
            }
            assert(ox0 + (k + 1) * (6 * s) == ox + 6 * s) by (nonlinear_arith)
                requires
                    ox == ox0 + k * (6 * s),
            ;
            ox += glyph_w + spacing;
            k += 1;
        }
        proof {
            let nv = number_view(v0, cx as int, cy as int, n as int, scale as int, color);
            assert forall|b: int| 0 <= b < v0.bytes.len() implies #[trigger] self@.bytes[b] == nv.bytes[b] by {
                if lit_byte(v0, lab, ox0, oy as int, s, b) {
                    lemma_lit_decomp(v0, lab, ox0, oy as int, s, b);
                }
            }
            assert(self@.bytes =~= nv.bytes);
        }
    }

}

} // verus!
