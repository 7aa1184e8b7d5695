use moz2d_blob::geometry::{Box2d, DeviceUintPoint, DeviceUintRect, DeviceUintSize};

fn rect(x: u32, y: u32, width: u32, height: u32) -> DeviceUintRect {
    DeviceUintRect { origin: DeviceUintPoint { x, y }, size: DeviceUintSize { width, height } }
}

fn corners(x1: u32, y1: u32, x2: u32, y2: u32) -> Box2d {
    Box2d { x1, y1, x2, y2 }
}

#[test]
fn corners_of_a_rect() {
    assert_eq!(Box2d::from(rect(3, 5, 10, 20)), corners(3, 5, 13, 25));
    assert_eq!(Box2d::from(rect(0, 0, 0, 0)), corners(0, 0, 0, 0));
    assert_eq!(
        Box2d::from(rect(1, 2, u32::MAX - 1, u32::MAX - 2)),
        corners(1, 2, u32::MAX, u32::MAX)
    );
}

#[test]
fn rect_past_the_last_pixel_has_no_edges() {
    assert!(rect(1, 2, u32::MAX - 1, u32::MAX - 2).has_edges());
    assert!(!rect(2, 2, u32::MAX - 1, u32::MAX - 2).has_edges());
    assert!(!rect(1, 3, u32::MAX - 1, u32::MAX - 2).has_edges());
}

#[test]
fn origin_is_zero() {
    assert_eq!(DeviceUintPoint::origin(), DeviceUintPoint { x: 0, y: 0 });
}

#[test]
fn containment_looks_at_all_edges() {
    let outer = corners(10, 10, 20, 20);
    assert!(outer.contained_by(&outer));
    assert!(corners(11, 12, 13, 14).contained_by(&outer));
    assert!(!corners(9, 10, 20, 20).contained_by(&outer));
    assert!(!corners(10, 9, 20, 20).contained_by(&outer));
    assert!(!corners(10, 10, 21, 20).contained_by(&outer));
    assert!(!corners(10, 10, 20, 21).contained_by(&outer));
    assert!(!outer.contained_by(&corners(11, 12, 13, 14)));
}
