use usage_monitor::icon::{check_number_fits, int_label, Canvas};

fn pixel(bytes: &[u8], w: i32, x: i32, y: i32) -> [u8; 4] {
    let i = ((y * w + x) * 4) as usize;
    [bytes[i], bytes[i + 1], bytes[i + 2], bytes[i + 3]]
}

#[test]
fn canvas_starts_transparent_and_puts_in_bounds_only() {
    let mut c = Canvas::new(4, 3);
    assert_eq!(c.width(), 4);
    assert_eq!(c.height(), 3);
    c.put(1, 2, (10, 20, 30), 40);
    c.put(-1, 0, (1, 1, 1), 1);
    c.put(4, 0, (1, 1, 1), 1);
    c.put(0, 3, (1, 1, 1), 1);
    let b = c.into_bytes();
    assert_eq!(b.len(), 48);
    assert_eq!(pixel(&b, 4, 1, 2), [10, 20, 30, 40]);
    assert_eq!(b.iter().map(|&x| x as u32).sum::<u32>(), 100);
}

#[test]
fn labels_match_to_string() {
    for n in [0, 7, 10, 99, 100, -5, i32::MAX, i32::MIN] {
        let s: String = int_label(n).into_iter().collect();
        assert_eq!(s, n.to_string());
    }
}

#[test]
fn number_draws_digit_one_centred() {
    // "1" at scale 1 centred on (3, 4): 5x7 glyph from (1, 1)
    let mut c = Canvas::new(8, 9);
    c.number(3, 4, 1, 1, (245, 245, 250));
    let b = c.into_bytes();
    let lit: Vec<(i32, i32)> = (0..9)
        .flat_map(|y| (0..8).map(move |x| (x, y)))
        .filter(|&(x, y)| pixel(&b, 8, x, y)[3] == 255)
        .collect();
    // column pattern of '1': 00100 / 01100 / 00100 x4 / 01110
    let expected = vec![
        (3, 1),
        (2, 2), (3, 2),
        (3, 3), (3, 4), (3, 5), (3, 6),
        (2, 7), (3, 7), (4, 7),
    ];
    assert_eq!(lit, expected);
    assert_eq!(pixel(&b, 8, 3, 1), [245, 245, 250, 255]);
}

#[test]
fn number_scales_and_clips() {
    // "88" at scale 2 on a 10x10 canvas: most of it falls outside and is dropped
    let mut c = Canvas::new(10, 10);
    c.number(0, 0, 88, 2, (1, 2, 3));
    let b = c.into_bytes();
    assert_eq!(b.len(), 400);
    // glyph cell origin: x = 0 - 22/2 = -11, y = 0 - 14/2 = -7; second '8' starts at x = 1
    // its top-left font pixel (row 0, col 1) covers x 3..5, y -7..-5: off canvas
    // row 3 of '8' is 01110: cols 1..3 -> x 3..9, y -1..1 -> row y = 0 lit at x 3..8
    for x in 3..9 {
        assert_eq!(pixel(&b, 10, x, 0), [1, 2, 3, 255]);
    }
    assert_eq!(pixel(&b, 10, 2, 0)[3], 0);
    assert_eq!(pixel(&b, 10, 9, 0)[3], 0);
}

#[test]
fn number_with_zero_scale_draws_nothing() {
    let mut c = Canvas::new(5, 5);
    c.number(2, 2, 42, 0, (9, 9, 9));
    assert!(c.into_bytes().iter().all(|&x| x == 0));
}

#[test]
fn number_fit_check() {
    assert!(check_number_fits(18, 19, 42, 2));
    assert!(check_number_fits(58, 19, -2147483648, 1));
    assert!(!check_number_fits(i32::MAX, 0, 5, 2));
    assert!(!check_number_fits(0, 0, 5, i32::MAX));
}
