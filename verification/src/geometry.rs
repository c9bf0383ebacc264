//! Screen geometry in whole pixels.

use vstd::prelude::*;

verus! {

/// A direction on the screen.
#[derive(Debug, Clone, Copy, PartialEq, Eq, Structural)]
pub enum Direction {
    Up,
    Down,
    Left,
    Right,
}

impl Direction {
    pub open spec fn inverse_spec(self) -> Direction {
        match self {
            Direction::Up => Direction::Down,
            Direction::Down => Direction::Up,
            Direction::Left => Direction::Right,
            Direction::Right => Direction::Left,
        }
    }

    /// The opposite direction.
    #[verifier::when_used_as_spec(inverse_spec)]
    pub fn inverse(self) -> (res: Direction)
        ensures
            res == self.inverse_spec(),
    {
        match self {
            Direction::Up => Direction::Down,
            Direction::Down => Direction::Up,
            Direction::Left => Direction::Right,
            Direction::Right => Direction::Left,
        }
    }

    /// Whether the direction points towards smaller coordinates.
    pub open spec fn is_backward_spec(self) -> bool {
        self == Direction::Up || self == Direction::Left
    }

    #[verifier::when_used_as_spec(is_backward_spec)]
    pub fn is_backward(self) -> (res: bool)
        ensures
            res == self.is_backward_spec(),
    {
        self == Direction::Up || self == Direction::Left
    }

    pub open spec fn is_vertical_spec(self) -> bool {
        self == Direction::Up || self == Direction::Down
    }

    /// Whether the direction runs along the vertical axis.
    #[verifier::when_used_as_spec(is_vertical_spec)]
    pub fn is_vertical(self) -> (res: bool)
        ensures
            res == self.is_vertical_spec(),
    {
        self == Direction::Up || self == Direction::Down
    }
}

/// The axis along which a container lays out its tiles.
#[derive(Debug, Clone, Copy, PartialEq, Eq, Structural)]
pub enum TilingDirection {
    Vertical,
    Horizontal,
}

impl TilingDirection {
    pub open spec fn inverse_spec(self) -> TilingDirection {
        match self {
            TilingDirection::Vertical => TilingDirection::Horizontal,
            TilingDirection::Horizontal => TilingDirection::Vertical,
        }
    }

    /// The other axis.
    #[verifier::when_used_as_spec(inverse_spec)]
    pub fn inverse(self) -> (res: TilingDirection)
        ensures
            res == self.inverse_spec(),
    {
        match self {
            TilingDirection::Vertical => TilingDirection::Horizontal,
            TilingDirection::Horizontal => TilingDirection::Vertical,
        }
    }

    pub open spec fn from_direction_spec(direction: Direction) -> TilingDirection {
        if direction.is_vertical_spec() {
            TilingDirection::Vertical
        } else {
            TilingDirection::Horizontal
        }
    }

    /// The axis that a direction runs along.
    #[verifier::when_used_as_spec(from_direction_spec)]
    pub fn from_direction(direction: Direction) -> (res: TilingDirection)
        ensures
            res == Self::from_direction_spec(direction),
    {
        if direction.is_vertical() {
            TilingDirection::Vertical
        } else {
            TilingDirection::Horizontal
        }
    }

    pub open spec fn is_horizontal_spec(self) -> bool {
        self == TilingDirection::Horizontal
    }

    #[verifier::when_used_as_spec(is_horizontal_spec)]
    pub fn is_horizontal(self) -> (res: bool)
        ensures
            res == self.is_horizontal_spec(),
    {
        self == TilingDirection::Horizontal
    }
}

/// A point on the desktop.
#[derive(Debug, Clone, Copy, PartialEq, Eq, Structural)]
pub struct Point {
    pub x: i32,
    pub y: i32,
}

/// A rectangle given by its four edges; `right` and `bottom` are exclusive.
#[derive(Debug, Clone, Copy, PartialEq, Eq, Structural)]
pub struct Rect {
    pub left: i32,
    pub top: i32,
    pub right: i32,
    pub bottom: i32,
}

/// How far each edge of a rectangle is pushed outwards.
#[derive(Debug, Clone, Copy, PartialEq, Eq, Structural)]
pub struct RectDelta {
    pub left: i32,
    pub top: i32,
    pub right: i32,
    pub bottom: i32,
}

pub open spec fn fits_i32(x: int) -> bool {
    i32::MIN <= x <= i32::MAX
}

pub open spec fn int_max(a: int, b: int) -> int {
    if a >= b {
        a
    } else {
        b
    }
}

pub open spec fn int_min(a: int, b: int) -> int {
    if a <= b {
        a
    } else {
        b
    }
}

pub open spec fn int_abs(a: int) -> int {
    if a >= 0 {
        a
    } else {
        -a
    }
}

/// Division that rounds towards zero, as integer division does at run time.
pub open spec fn trunc_div(a: int, b: int) -> int
    recommends
        b > 0,
{
    if a >= 0 {
        a / b
    } else {
        -((-a) / b)
    }
}

pub fn max_i32(a: i32, b: i32) -> (res: i32)
    ensures
        res == int_max(a as int, b as int),
{
    if a >= b {
        a
    } else {
        b
    }
}

pub fn min_i32(a: i32, b: i32) -> (res: i32)
    ensures
        res == int_min(a as int, b as int),
{
    if a <= b {
        a
    } else {
        b
    }
}

pub fn max_i64(a: i64, b: i64) -> (res: i64)
    ensures
        res == int_max(a as int, b as int),
{
    if a >= b {
        a
    } else {
        b
    }
}

pub fn min_i64(a: i64, b: i64) -> (res: i64)
    ensures
        res == int_min(a as int, b as int),
{
    if a <= b {
        a
    } else {
        b
    }
}

/// The distance of `a` from zero.
pub fn abs_i64(a: i64) -> (res: i64)
    requires
        a > i64::MIN,
    ensures
        res == int_abs(a as int),
{
    if a >= 0 {
        a
    } else {
        -a
    }
}

/// Halves `a`, rounding towards zero.
pub fn half_i64(a: i64) -> (res: i64)
    requires
        a > i64::MIN,
    ensures
        res == trunc_div(a as int, 2),
{
    if a >= 0 {
        a / 2
    } else {
        -((-a) / 2)
    }
}

/// Narrows `x` to a pixel coordinate, if it is one.
pub fn to_i32(x: i64) -> (res: Option<i32>)
    ensures
        res == (if fits_i32(x as int) {
            Some(x as i32)
        } else {
            None
        }),
{
    if -2147483648 <= x && x <= 2147483647 {
        Some(x as i32)
    } else {
        None
    }
}

impl Rect {
    /// The width as a mathematical number.
    pub open spec fn w(self) -> int {
        self.right - self.left
    }

    /// The height as a mathematical number.
    pub open spec fn h(self) -> int {
        self.bottom - self.top
    }

    /// Whether width and height are pixel counts that `i32` can hold.
    pub open spec fn measurable(self) -> bool {
        fits_i32(self.w()) && fits_i32(self.h())
    }

    /// The rectangle with the given corner and size, over mathematical numbers.
    pub open spec fn xy_spec(x: int, y: int, width: int, height: int) -> Rect {
        Rect {
            left: x as i32,
            top: y as i32,
            right: (x + width) as i32,
            bottom: (y + height) as i32,
        }
    }

    /// Whether the rectangle with that corner and size can be represented.
    pub open spec fn xy_fits(x: int, y: int, width: int, height: int) -> bool {
        fits_i32(x) && fits_i32(y) && fits_i32(x + width) && fits_i32(y + height)
    }

    pub fn from_ltrb(left: i32, top: i32, right: i32, bottom: i32) -> (res: Rect)
        ensures
            res == (Rect { left, top, right, bottom }),
    {
        Rect { left, top, right, bottom }
    }

    pub fn from_xy(x: i32, y: i32, width: i32, height: i32) -> (res: Rect)
        requires
            Self::xy_fits(x as int, y as int, width as int, height as int),
        ensures
            res == Self::xy_spec(x as int, y as int, width as int, height as int),
            res.measurable(),
            res.w() == width,
            res.h() == height,
    {
        Rect { left: x, top: y, right: x + width, bottom: y + height }
    }

    /// As `from_xy`, on numbers that may lie outside the pixel range.
    pub fn checked_xy(x: i64, y: i64, width: i64, height: i64) -> (res: Option<Rect>)
        requires
            -0x2000_0000_0000_0000 <= x <= 0x2000_0000_0000_0000,
            -0x2000_0000_0000_0000 <= y <= 0x2000_0000_0000_0000,
            -0x2000_0000_0000_0000 <= width <= 0x2000_0000_0000_0000,
            -0x2000_0000_0000_0000 <= height <= 0x2000_0000_0000_0000,
        ensures
            res == (if Self::xy_fits(x as int, y as int, width as int, height as int) {
                Some(Self::xy_spec(x as int, y as int, width as int, height as int))
            } else {
                None
            }),
    {
        match (to_i32(x), to_i32(y), to_i32(x + width), to_i32(y + height)) {
            (Some(left), Some(top), Some(right), Some(bottom)) => Some(
                Rect { left, top, right, bottom },
            ),
            _ => None,
        }
    }

    pub fn x(&self) -> (res: i32)
        ensures
            res == self.left,
    {
        self.left
    }

    pub fn y(&self) -> (res: i32)
        ensures
            res == self.top,
    {
        self.top
    }

    pub fn width(&self) -> (res: i32)
        requires
            fits_i32(self.w()),
        ensures
            res == self.w(),
    {
        self.right - self.left
    }

    pub fn height(&self) -> (res: i32)
        requires
            fits_i32(self.h()),
        ensures
            res == self.h(),
    {
        self.bottom - self.top
    }

    /// The width, whatever the edges are.
    pub fn wide_width(&self) -> (res: i64)
        ensures
            res == self.w(),
    {
        self.right as i64 - self.left as i64
    }

    /// The height, whatever the edges are.
    pub fn wide_height(&self) -> (res: i64)
        ensures
            res == self.h(),
    {
        self.bottom as i64 - self.top as i64
    }

    pub open spec fn center_x(self) -> int {
        self.left + trunc_div(self.w(), 2)
    }

    pub open spec fn center_y(self) -> int {
        self.top + trunc_div(self.h(), 2)
    }

    /// The middle of the rectangle, rounded towards its top left corner.
    pub fn center_point(&self) -> (res: Point)
        requires
            self.measurable(),
        ensures
            res.x == self.center_x(),
            res.y == self.center_y(),
    {
        let half_width = half_i64(self.wide_width());
        let half_height = half_i64(self.wide_height());
        Point {
            x: (self.left as i64 + half_width) as i32,
            y: (self.top as i64 + half_height) as i32,
        }
    }

    pub open spec fn centered_x(self, outer: Rect) -> int {
        outer.left + trunc_div(outer.w(), 2) - trunc_div(self.w(), 2)
    }

    pub open spec fn centered_y(self, outer: Rect) -> int {
        outer.top + trunc_div(outer.h(), 2) - trunc_div(self.h(), 2)
    }

    /// The rectangle of this size at a place, if it lies on the desktop.
    pub open spec fn at(self, x: int, y: int) -> Option<Rect> {
        if Self::xy_fits(x, y, self.w(), self.h()) {
            Some(Self::xy_spec(x, y, self.w(), self.h()))
        } else {
            None
        }
    }

    /// The same size in the middle of `outer`, if that lies on the desktop.
    pub fn translate_to_center(&self, outer: &Rect) -> (res: Option<Rect>)
        ensures
            res == self.at(self.centered_x(*outer), self.centered_y(*outer)),
    {
        let x: i64 = outer.left as i64 + half_i64(outer.wide_width()) - half_i64(self.wide_width());
        let y: i64 = outer.top as i64 + half_i64(outer.wide_height()) - half_i64(
            self.wide_height(),
        );
        Self::checked_xy(x, y, self.wide_width(), self.wide_height())
    }

    /// Whether the point lies on the rectangle.
    pub open spec fn has_point(self, point: Point) -> bool {
        self.left <= point.x < self.right && self.top <= point.y < self.bottom
    }

    pub fn contains_point(&self, point: &Point) -> (res: bool)
        ensures
            res == self.has_point(*point),
    {
        self.left <= point.x && point.x < self.right && self.top <= point.y && point.y < self.bottom
    }

    /// How far `value` lies outside `low..=high`.
    pub open spec fn outside(value: int, low: int, high: int) -> int {
        if value < low {
            low - value
        } else if value > high {
            value - high
        } else {
            0
        }
    }

    /// The square of the distance from the rectangle to the point.
    pub open spec fn distance_squared(self, point: Point) -> int {
        let dx = Self::outside(point.x as int, self.left as int, self.right as int);
        let dy = Self::outside(point.y as int, self.top as int, self.bottom as int);
        dx * dx + dy * dy
    }

    /// The square of the distance from the rectangle to the point, which orders
    /// rectangles as the distance itself does.
    pub fn distance_to_point_squared(&self, point: &Point) -> (res: u128)
        ensures
            res == self.distance_squared(*point),
    {
        let dx: u128 = gap_outside(point.x, self.left, self.right);
        let dy: u128 = gap_outside(point.y, self.top, self.bottom);
        assert(dx * dx <= 0x1_0000_0000 * 0x1_0000_0000) by (nonlinear_arith)
            requires
                dx <= 0x1_0000_0000,
        ;
        assert(dy * dy <= 0x1_0000_0000 * 0x1_0000_0000) by (nonlinear_arith)
            requires
                dy <= 0x1_0000_0000,
        ;
        dx * dx + dy * dy
    }

    /// The area that two rectangles share, zero where they do not meet.
    pub open spec fn shared_area(self, other: Rect) -> int {
        let width = int_min(self.right as int, other.right as int) - int_max(
            self.left as int,
            other.left as int,
        );
        let height = int_min(self.bottom as int, other.bottom as int) - int_max(
            self.top as int,
            other.top as int,
        );
        int_max(width, 0) * int_max(height, 0)
    }

    pub fn intersection_area(&self, other: &Rect) -> (res: u128)
        ensures
            res == self.shared_area(*other),
    {
        let width: i64 = min_i32(self.right, other.right) as i64 - max_i32(
            self.left,
            other.left,
        ) as i64;
        let height: i64 = min_i32(self.bottom, other.bottom) as i64 - max_i32(
            self.top,
            other.top,
        ) as i64;
        let width: u128 = max_i64(width, 0) as u128;
        let height: u128 = max_i64(height, 0) as u128;
        assert(width * height <= 0x1_0000_0000 * 0x1_0000_0000) by (nonlinear_arith)
            requires
                width <= 0x1_0000_0000,
                height <= 0x1_0000_0000,
        ;
        width * height
    }

    /// Each edge pushed outwards by its part of the delta, over mathematical
    /// numbers.
    pub open spec fn delta_fits(self, delta: RectDelta) -> bool {
        fits_i32(self.left - delta.left) && fits_i32(self.top - delta.top) && fits_i32(
            self.right + delta.right,
        ) && fits_i32(self.bottom + delta.bottom)
    }

    pub open spec fn with_delta(self, delta: RectDelta) -> Rect {
        Rect {
            left: (self.left - delta.left) as i32,
            top: (self.top - delta.top) as i32,
            right: (self.right + delta.right) as i32,
            bottom: (self.bottom + delta.bottom) as i32,
        }
    }

    /// Pushes each edge outwards, if the result lies on the desktop.
    pub fn apply_delta(&self, delta: &RectDelta) -> (res: Option<Rect>)
        ensures
            res == (if self.delta_fits(*delta) {
                Some(self.with_delta(*delta))
            } else {
                None
            }),
    {
        match (
            to_i32(self.left as i64 - delta.left as i64),
            to_i32(self.top as i64 - delta.top as i64),
            to_i32(self.right as i64 + delta.right as i64),
            to_i32(self.bottom as i64 + delta.bottom as i64),
        ) {
            (Some(left), Some(top), Some(right), Some(bottom)) => Some(
                Rect { left, top, right, bottom },
            ),
            _ => None,
        }
    }
}

impl Rect {
    pub open spec fn inset_fits(self, delta: RectDelta) -> bool {
        fits_i32(self.left + delta.left) && fits_i32(self.top + delta.top) && fits_i32(
            self.right - delta.right,
        ) && fits_i32(self.bottom - delta.bottom)
    }

    /// Each edge pulled inwards by its part of the delta.
    pub open spec fn inset(self, delta: RectDelta) -> Rect {
        Rect {
            left: (self.left + delta.left) as i32,
            top: (self.top + delta.top) as i32,
            right: (self.right - delta.right) as i32,
            bottom: (self.bottom - delta.bottom) as i32,
        }
    }

    /// Pulls each edge inwards, if the result lies on the desktop.
    pub fn apply_inverse_delta(&self, delta: &RectDelta) -> (res: Option<Rect>)
        ensures
            res == (if self.inset_fits(*delta) {
                Some(self.inset(*delta))
            } else {
                None
            }),
    {
        match (
            to_i32(self.left as i64 + delta.left as i64),
            to_i32(self.top as i64 + delta.top as i64),
            to_i32(self.right as i64 - delta.right as i64),
            to_i32(self.bottom as i64 - delta.bottom as i64),
        ) {
            (Some(left), Some(top), Some(right), Some(bottom)) => Some(
                Rect { left, top, right, bottom },
            ),
            _ => None,
        }
    }
}

fn gap_outside(value: i32, low: i32, high: i32) -> (res: u128)
    ensures
        res == Rect::outside(value as int, low as int, high as int),
        res <= 0x1_0000_0000,
{
    if value < low {
        (low as i64 - value as i64) as u128
    } else if value > high {
        (value as i64 - high as i64) as u128
    } else {
        0
    }
}

/// Applying a delta and taking it back leaves a rectangle as it was.
pub proof fn delta_is_taken_back(rect: Rect, delta: RectDelta)
    requires
        rect.delta_fits(delta),
    ensures
        rect.with_delta(delta).inset_fits(delta),
        rect.with_delta(delta).inset(delta) == rect,
{
}

} // verus!
