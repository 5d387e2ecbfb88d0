use usage_monitor::placement::{checked_corner_origin, checked_nearest_corner, corner_origin, nearest_corner, Monitor};

const MON: Monitor = Monitor { x: 0, y: 0, width: 1920, height: 1080 };

#[test]
fn corner_origins() {
    assert_eq!(corner_origin("tl", MON, 190, 56, 12, 44), (12, 12));
    assert_eq!(corner_origin("tr", MON, 190, 56, 12, 44), (1718, 12));
    assert_eq!(corner_origin("bl", MON, 190, 56, 12, 44), (12, 968));
    assert_eq!(corner_origin("br", MON, 190, 56, 12, 44), (1718, 968));
    // anything else is top-right
    assert_eq!(corner_origin("zz", MON, 190, 56, 12, 44), (1718, 12));
    let second = Monitor { x: 1920, y: -200, width: 1280, height: 1024 };
    assert_eq!(corner_origin("tl", second, 190, 56, 12, 44), (1932, -188));
}

#[test]
fn nearest_corner_by_centre() {
    assert_eq!(nearest_corner(10, 10, 190, 56, MON), "tl");
    assert_eq!(nearest_corner(1700, 10, 190, 56, MON), "tr");
    assert_eq!(nearest_corner(10, 900, 190, 56, MON), "bl");
    assert_eq!(nearest_corner(1700, 900, 190, 56, MON), "br");
    // exactly on the midline counts as the right/bottom half
    assert_eq!(nearest_corner(960 - 95, 540 - 28, 190, 56, MON), "br");
}

#[test]
fn pinned_corner_round_trips() {
    for c in ["tl", "tr", "bl", "br"] {
        let (x, y) = corner_origin(c, MON, 190, 56, 12, 44);
        assert_eq!(nearest_corner(x, y, 190, 56, MON), c);
    }
}

#[test]
fn checked_placement_agrees_or_refuses() {
    assert_eq!(checked_corner_origin("br", MON, 190, 56, 12, 44), Some((1718, 968)));
    assert_eq!(checked_nearest_corner(10, 900, 190, 56, MON).as_deref(), Some("bl"));
    let far = Monitor { x: i32::MAX - 100, y: 0, width: 1920, height: 1080 };
    // the right edge overflows, the left one does not
    assert_eq!(checked_corner_origin("tr", far, 190, 56, 12, 44), None);
    assert_eq!(checked_corner_origin("tl", far, 190, 56, 12, 44), Some((i32::MAX - 88, 12)));
    assert_eq!(checked_nearest_corner(i32::MAX - 10, 0, 190, 56, MON), None);
}
