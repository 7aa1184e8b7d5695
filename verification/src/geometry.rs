//! Rectangles: as an origin with a size, and as a pair of corners.

use vstd::prelude::*;

verus! {

/// A position in device pixels.
#[derive(Clone, Copy, Debug, PartialEq, Eq, Structural)]
pub struct DeviceUintPoint {
    pub x: u32,
    pub y: u32,
}

/// An extent in device pixels.
#[derive(Clone, Copy, Debug, PartialEq, Eq, Structural)]
pub struct DeviceUintSize {
    pub width: u32,
    pub height: u32,
}

/// A rectangle in device pixels.
#[derive(Clone, Copy, Debug, PartialEq, Eq, Structural)]
pub struct DeviceUintRect {
    pub origin: DeviceUintPoint,
    pub size: DeviceUintSize,
}

impl DeviceUintRect {
    /// Both far edges can be expressed as `u32`.
    pub open spec fn in_range(self) -> bool {
        &&& self.origin.x + self.size.width <= u32::MAX
        &&& self.origin.y + self.size.height <= u32::MAX
    }

    /// Tells whether both far edges can be expressed as `u32`.
    pub fn has_edges(&self) -> (yes: bool)
        ensures
            yes == self.in_range(),
            yes <==> self.origin.x + self.size.width <= u32::MAX && self.origin.y
                + self.size.height <= u32::MAX,
    {
        self.size.width <= u32::MAX - self.origin.x && self.size.height <= u32::MAX - self.origin.y
    }
}

/// `min_x` of a `webrender_api::DeviceUintRect`: the left edge is the origin's
/// `x`.
#[verifier::external_body]
fn rect_min_x(rect: &DeviceUintRect) -> (x: u32)
    ensures
        x == rect.origin.x,
{
    webrender_api::DeviceUintRect::new(
        webrender_api::DeviceUintPoint::new(rect.origin.x, rect.origin.y),
        webrender_api::DeviceUintSize::new(rect.size.width, rect.size.height),
    ).min_x()
}

/// `min_y` of a `webrender_api::DeviceUintRect`: the top edge is the origin's
/// `y`.
#[verifier::external_body]
fn rect_min_y(rect: &DeviceUintRect) -> (y: u32)
    ensures
        y == rect.origin.y,
{
    webrender_api::DeviceUintRect::new(
        webrender_api::DeviceUintPoint::new(rect.origin.x, rect.origin.y),
        webrender_api::DeviceUintSize::new(rect.size.width, rect.size.height),
    ).min_y()
}

/// `max_x` of a `webrender_api::DeviceUintRect`: the right edge lies one width
/// past the left one, and the sum must not overflow.
#[verifier::external_body]
fn rect_max_x(rect: &DeviceUintRect) -> (x: u32)
    requires
        rect.origin.x + rect.size.width <= u32::MAX,
    ensures
        x == rect.origin.x + rect.size.width,
{
    webrender_api::DeviceUintRect::new(
        webrender_api::DeviceUintPoint::new(rect.origin.x, rect.origin.y),
        webrender_api::DeviceUintSize::new(rect.size.width, rect.size.height),
    ).max_x()
}

/// `max_y` of a `webrender_api::DeviceUintRect`: the bottom edge lies one
/// height past the top one, and the sum must not overflow.
#[verifier::external_body]
fn rect_max_y(rect: &DeviceUintRect) -> (y: u32)
    requires
        rect.origin.y + rect.size.height <= u32::MAX,
    ensures
        y == rect.origin.y + rect.size.height,
{
    webrender_api::DeviceUintRect::new(
        webrender_api::DeviceUintPoint::new(rect.origin.x, rect.origin.y),
        webrender_api::DeviceUintSize::new(rect.size.width, rect.size.height),
    ).max_y()
}

/// `origin` of a `webrender_api::DeviceUintPoint`: the point whose coordinates
/// are both zero.
#[verifier::external_body]
fn point_origin() -> (point: DeviceUintPoint)
    ensures
        point.x == 0,
        point.y == 0,
{
    let origin = webrender_api::DeviceUintPoint::origin();
    DeviceUintPoint { x: origin.x, y: origin.y }
}

impl DeviceUintPoint {
    /// The top left corner of the device.
    pub fn origin() -> (point: DeviceUintPoint)
        ensures
            point == (DeviceUintPoint { x: 0, y: 0 }),
    {
        point_origin()
    }
}

/// A rectangle given by its corners `(x1, y1)` and `(x2, y2)`.
#[derive(Clone, Copy, Debug, PartialEq, Eq, PartialOrd, Ord, Structural)]
pub struct Box2d {
    pub x1: u32,
    pub y1: u32,
    pub x2: u32,
    pub y2: u32,
}

impl Box2d {
    /// No edge lies outside `other`.
    pub open spec fn within(self, other: Box2d) -> bool {
        &&& other.x1 <= self.x1
        &&& other.y1 <= self.y1
        &&& self.x2 <= other.x2
        &&& self.y2 <= other.y2
    }

    /// The pixels of the box.
    pub open spec fn pixels(self) -> Set<(int, int)> {
        Set::new(|p: (int, int)| self.x1 <= p.0 < self.x2 && self.y1 <= p.1 < self.y2)
    }

    /// Tells whether no edge lies outside `other`. For a box with pixels that
    /// is so exactly when each of them is a pixel of `other`.
    pub fn contained_by(&self, other: &Box2d) -> (yes: bool)
        ensures
            yes == self.within(*other),
            yes <==> self.x1 >= other.x1 && self.x2 <= other.x2 && self.y1 >= other.y1 && self.y2
                <= other.y2,
            self.x1 < self.x2 && self.y1 < self.y2 ==> yes == self.pixels().subset_of(
                other.pixels(),
            ),
    {
        proof {
            if self.x1 < self.x2 && self.y1 < self.y2 {
                law_within_is_pixel_containment(*self, *other);
            }
        }
        self.x1 >= other.x1 && self.x2 <= other.x2 && self.y1 >= other.y1 && self.y2 <= other.y2
    }

    /// The corners of `rect`.
    pub open spec fn of_rect(rect: DeviceUintRect) -> Box2d {
        Box2d {
            x1: rect.origin.x,
            y1: rect.origin.y,
            x2: (rect.origin.x + rect.size.width) as u32,
            y2: (rect.origin.y + rect.size.height) as u32,
        }
    }

    /// Converts a rectangle to its corners.
    pub fn from(rect: DeviceUintRect) -> (corners: Box2d)
        requires
            rect.in_range(),
        ensures
            corners == Box2d::of_rect(rect),
            corners.x1 == rect.origin.x,
            corners.y1 == rect.origin.y,
            corners.x2 == rect.origin.x + rect.size.width,
            corners.y2 == rect.origin.y + rect.size.height,
    {
        Box2d {
            x1: rect_min_x(&rect),
            y1: rect_min_y(&rect),
            x2: rect_max_x(&rect),
            y2: rect_max_y(&rect),
        }
    }
}

/// A position is a pixel of a box when it lies on or past the near edges, and
/// before the far ones.
pub proof fn law_pixels_of_a_box(corners: Box2d, x: int, y: int)
    ensures
        corners.pixels().contains((x, y)) <==> corners.x1 <= x < corners.x2 && corners.y1 <= y
            < corners.y2,
{
}

/// A box with pixels lies within another exactly when each of its pixels is a
/// pixel of the other.
pub proof fn law_within_is_pixel_containment(a: Box2d, b: Box2d)
    requires
        a.x1 < a.x2,
        a.y1 < a.y2,
    ensures
        a.within(b) <==> (forall|x: int, y: int| #[trigger]
            a.pixels().contains((x, y)) ==> b.pixels().contains((x, y))),
        a.within(b) <==> a.pixels().subset_of(b.pixels()),
{
    let near = (a.x1 as int, a.y1 as int);
    let far = (a.x2 - 1, a.y2 - 1);
    assert(a.pixels().contains(near));
    assert(a.pixels().contains(far));
    if forall|x: int, y: int| #[trigger]
        a.pixels().contains((x, y)) ==> b.pixels().contains((x, y)) {
        assert(b.pixels().contains((near.0, near.1)));
        assert(b.pixels().contains((far.0, far.1)));
    }
    if a.pixels().subset_of(b.pixels()) {
        assert(b.pixels().contains(near));
        assert(b.pixels().contains(far));
    }
}

/// The pixels of a rectangle are those from its origin on, as many to the right
/// as it is wide and as many down as it is high.
pub proof fn law_pixels_of_a_rect(rect: DeviceUintRect, dx: int, dy: int)
    requires
        rect.origin.x + rect.size.width <= u32::MAX,
        rect.origin.y + rect.size.height <= u32::MAX,
    ensures
        Box2d::of_rect(rect).pixels().contains((rect.origin.x + dx, rect.origin.y + dy)) <==> 0
            <= dx < rect.size.width && 0 <= dy < rect.size.height,
{
}

/// Containment is a partial order on boxes.
pub proof fn law_within_is_partial_order(a: Box2d, b: Box2d, c: Box2d)
    ensures
        a.within(a),
        a.within(b) && b.within(a) ==> a == b,
        a.within(b) && b.within(c) ==> a.within(c),
{
}

} // verus!
