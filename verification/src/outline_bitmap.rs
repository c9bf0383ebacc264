//! The pixels of the outline around a window.
//!
//! An outline is what lies inside one rounded rectangle and outside another. Along straight edges
//! pixels are filled or empty. Along curves the opacity fades over one pixel, by how far the middle
//! of the pixel is from the curve. Distances are counted in half pixels, so that they are whole
//! numbers but for the root in the distance from the middle of a corner.

use vstd::prelude::*;

use crate::color::Color;
use crate::geometry::{int_abs, int_max, int_min};

verus! {

/// Why an outline could not be drawn.
#[derive(Debug, Clone, Copy, PartialEq, Eq, Structural)]
pub enum OutlineError {
    /// The outline has no width or no height.
    InvalidDimensions,
    /// The outline has more pixels than can be counted.
    DimensionsOverflow,
    /// There is no memory for the pixels.
    CannotAllocate,
}

/// Whether an opacity of `a`, faded to half of `reach` less the root of `square`, is at least `n`
/// less one half.
pub open spec fn reaches(a: int, reach: int, square: int, n: int) -> bool {
    &&& 0 <= a * reach - 2 * n + 1
    &&& a * a * square <= (a * reach - 2 * n + 1) * (a * reach - 2 * n + 1)
}

/// The greatest number up to `n` that a faded opacity reaches.
pub open spec fn greatest_reached(a: int, reach: int, square: int, n: int) -> int
    decreases n,
{
    if n <= 0 {
        0
    } else if reaches(a, reach, square, n) {
        n
    } else {
        greatest_reached(a, reach, square, n - 1)
    }
}

/// The opacity `a` faded to half of `reach` less the root of `square`, to the nearest whole number.
pub open spec fn faded(a: int, reach: int, square: int) -> int {
    greatest_reached(a, reach, square, a)
}

/// How far the middle of a pixel lies beyond the straight part of an edge, in half pixels.
pub open spec fn beyond(at: int, length: int, radius: int) -> int {
    int_abs(2 * at + 1 - length) - (length - 2 * radius)
}

/// The opacity of a filled rectangle with rounded corners at one pixel.
pub open spec fn filled(a: int, x: int, y: int, width: int, height: int, radius: int) -> int {
    let dx = beyond(x, width, radius);
    let dy = beyond(y, height, radius);
    if dx > 0 && dy > 0 {
        faded(a, 1 + 2 * radius, dx * dx + dy * dy)
    } else if int_max(dx, dy) <= 2 * radius {
        a
    } else {
        0
    }
}

/// The radius and the thickness that fit into an outline.
pub open spec fn fitting_radius(width: int, height: int, radius: int) -> int {
    int_min(int_min(int_max(radius, 0), width / 2), height / 2)
}

pub open spec fn fitting_thickness(width: int, height: int, thickness: int) -> int {
    int_min(int_max(thickness, 1), (int_min(width, height) + 1) / 2)
}

/// The opacity of what lies within the inner curve.
pub open spec fn hollow(
    a: int,
    x: int,
    y: int,
    width: int,
    height: int,
    inset: int,
    radius: int,
) -> int {
    if width > 2 * inset && height > 2 * inset {
        filled(
            a,
            x - inset,
            y - inset,
            width - 2 * inset,
            height - 2 * inset,
            int_max(radius - inset, 0),
        )
    } else {
        0
    }
}

/// The opacity of the outline at one pixel.
pub open spec fn ring(
    a: int,
    x: int,
    y: int,
    width: int,
    height: int,
    inset: int,
    radius: int,
) -> int {
    int_max(
        filled(a, x, y, width, height, radius) - hollow(a, x, y, width, height, inset, radius),
        0,
    )
}

/// A channel scaled by an opacity.
pub open spec fn scaled(value: int, alpha: int) -> int {
    (value * alpha + 127) / 255
}

/// A pixel: the opacity, then red, green and blue scaled by it.
pub open spec fn pixel(color: Color, alpha: int) -> int {
    alpha * 0x100_0000 + scaled(color.r as int, alpha) * 0x1_0000 + scaled(color.g as int, alpha)
        * 0x100 + scaled(color.b as int, alpha)
}

/// All pixels of an outline, row by row.
pub open spec fn outline_pixels(
    width: int,
    height: int,
    thickness: int,
    radius: int,
    color: Color,
) -> Seq<u32> {
    let inset = fitting_thickness(width, height, thickness);
    let corner = fitting_radius(width, height, radius);
    Seq::new(
        (width * height) as nat,
        |i: int|
            pixel(
                color,
                ring(color.a as int, i % width, i / width, width, height, inset, corner),
            ) as u32,
    )
}

proof fn lemma_reaches_less(a: int, reach: int, square: int, n: int)
    requires
        reaches(a, reach, square, n),
    ensures
        reaches(a, reach, square, n - 1),
{
    let p = a * reach - 2 * n + 1;
    assert(p * p <= (p + 2) * (p + 2)) by (nonlinear_arith)
        requires
            0 <= p,
    ;
    assert(a * reach - 2 * (n - 1) + 1 == p + 2);
}

/// Where a number is not reached, no greater one is.
proof fn lemma_none_reached(a: int, reach: int, square: int, low: int, n: int)
    requires
        0 < low,
        !reaches(a, reach, square, low),
    ensures
        greatest_reached(a, reach, square, n) < low,
    decreases n,
{
    if n > 0 {
        lemma_none_reached(a, reach, square, low, n - 1);
        if reaches(a, reach, square, n) && n >= low {
            lemma_reached_below(a, reach, square, n, low);
        }
    }
}

proof fn lemma_reached_below(a: int, reach: int, square: int, n: int, low: int)
    requires
        reaches(a, reach, square, n),
        low <= n,
    ensures
        reaches(a, reach, square, low),
    decreases n - low,
{
    if low < n {
        lemma_reaches_less(a, reach, square, n);
        lemma_reached_below(a, reach, square, n - 1, low);
    }
}

proof fn lemma_greatest_bounds(a: int, reach: int, square: int, n: int)
    ensures
        0 <= greatest_reached(a, reach, square, n),
        n >= 0 ==> greatest_reached(a, reach, square, n) <= n,
    decreases n,
{
    if n > 0 && !reaches(a, reach, square, n) {
        lemma_greatest_bounds(a, reach, square, n - 1);
    }
}

proof fn lemma_filled_bounds(a: int, x: int, y: int, width: int, height: int, radius: int)
    requires
        0 <= a,
    ensures
        0 <= filled(a, x, y, width, height, radius) <= a,
{
    let dx = beyond(x, width, radius);
    let dy = beyond(y, height, radius);
    lemma_greatest_bounds(a, 1 + 2 * radius, dx * dx + dy * dy, a);
}

fn reaches_at(a: u8, reach: i64, square: i128, n: i64) -> (res: bool)
    requires
        -0x2_0000_0000 <= reach <= 0x2_0000_0000,
        0 <= square <= 0x1_0000_0000_0000_0000_0000,
        0 <= n <= 255,
    ensures
        res == reaches(a as int, reach as int, square as int, n as int),
{
    let w: i128 = a as i128;
    proof {
        let (b, r, s) = (a as int, reach as int, square as int);
        assert(-0x200_0000_0000 <= b * r <= 0x200_0000_0000) by (nonlinear_arith)
            requires
                0 <= b <= 255,
                -0x2_0000_0000 <= r <= 0x2_0000_0000,
        ;
        assert(0 <= b * b <= 0x1_0000) by (nonlinear_arith)
            requires
                0 <= b <= 255,
        ;
        assert(0 <= b * b * s <= 0x1_0000_0000_0000_0000_0000_0000) by (nonlinear_arith)
            requires
                0 <= b * b <= 0x1_0000,
                0 <= s <= 0x1_0000_0000_0000_0000_0000,
        ;
    }
    let rest: i128 = w * reach as i128 - 2 * n as i128 + 1;
    if rest < 0 {
        return false;
    }
    proof {
        assert(rest * rest <= 0x10_0000_0000_0000_0000_0000_0000) by (nonlinear_arith)
            requires
                0 <= rest <= 0x400_0000_0000,
        ;
        assert(0 <= rest * rest) by (nonlinear_arith);
    }
    w * w * square <= rest * rest
}

fn faded_opacity(a: u8, reach: i64, square: i128) -> (res: u8)
    requires
        -0x2_0000_0000 <= reach <= 0x2_0000_0000,
        0 <= square <= 0x1_0000_0000_0000_0000_0000,
    ensures
        res == faded(a as int, reach as int, square as int),
{
    let ghost (b, r, s) = (a as int, reach as int, square as int);
    if a == 0 {
        return 0;
    }
    if !reaches_at(a, reach, square, 1) {
        proof {
            lemma_none_reached(b, r, s, 1, b);
            lemma_greatest_bounds(b, r, s, b);
        }
        return 0;
    }
    let mut n: u8 = a;
    while n > 0
        invariant
            n <= a,
            b == a,
            r == reach,
            s == square,
            -0x2_0000_0000 <= reach <= 0x2_0000_0000,
            0 <= square <= 0x1_0000_0000_0000_0000_0000,
            faded(b, r, s) == greatest_reached(b, r, s, n as int),
        decreases n,
    {
        if reaches_at(a, reach, square, n as i64) {
            return n;
        }
        n = n - 1;
    }
    0
}

fn half_pixels_beyond(at: i64, length: i64, radius: i64) -> (res: i64)
    requires
        -0x8000_0000 <= at <= 0x8000_0000,
        0 <= length <= 0x8000_0000,
        0 <= radius <= 0x8000_0000,
    ensures
        res == beyond(at as int, length as int, radius as int),
        -0x1_0000_0000 <= res <= 0x3_0000_0000,
{
    let middle: i64 = 2 * at + 1 - length;
    let from: i64 = if middle < 0 {
        -middle
    } else {
        middle
    };
    from - (length - 2 * radius)
}

fn filled_opacity(a: u8, x: i64, y: i64, width: i64, height: i64, radius: i64) -> (res: u8)
    requires
        -0x8000_0000 <= x <= 0x8000_0000,
        -0x8000_0000 <= y <= 0x8000_0000,
        0 <= width <= 0x8000_0000,
        0 <= height <= 0x8000_0000,
        0 <= radius <= 0x8000_0000,
    ensures
        res == filled(a as int, x as int, y as int, width as int, height as int, radius as int),
{
    let dx: i64 = half_pixels_beyond(x, width, radius);
    let dy: i64 = half_pixels_beyond(y, height, radius);
    if dx > 0 && dy > 0 {
        proof {
            assert(0 <= dx * dx <= 0x10_0000_0000_0000_0000) by (nonlinear_arith)
                requires
                    0 < dx <= 0x3_0000_0000,
            ;
            assert(0 <= dy * dy <= 0x10_0000_0000_0000_0000) by (nonlinear_arith)
                requires
                    0 < dy <= 0x3_0000_0000,
            ;
        }
        faded_opacity(a, 1 + 2 * radius, dx as i128 * dx as i128 + dy as i128 * dy as i128)
    } else if dx <= 2 * radius && dy <= 2 * radius {
        a
    } else {
        0
    }
}

/// The opacity of the outline at one pixel.
fn ring_opacity(a: u8, x: i64, y: i64, width: i64, height: i64, inset: i64, radius: i64) -> (res:
    u8)
    requires
        0 <= x < width <= 0x7fff_ffff,
        0 <= y < height <= 0x7fff_ffff,
        0 <= inset <= 0x4000_0000,
        0 <= radius <= 0x4000_0000,
    ensures
        res == ring(
            a as int,
            x as int,
            y as int,
            width as int,
            height as int,
            inset as int,
            radius as int,
        ),
{
    let outer: u8 = filled_opacity(a, x, y, width, height, radius);
    let inner: u8 = if width > 2 * inset && height > 2 * inset {
        let rest: i64 = if radius > inset {
            radius - inset
        } else {
            0
        };
        filled_opacity(a, x - inset, y - inset, width - 2 * inset, height - 2 * inset, rest)
    } else {
        0
    };
    if outer > inner {
        outer - inner
    } else {
        0
    }
}

fn scaled_channel(value: u8, alpha: u8) -> (res: u32)
    ensures
        res == scaled(value as int, alpha as int),
        res <= 255,
{
    proof {
        assert(0 <= value * alpha <= 65025) by (nonlinear_arith)
            requires
                0 <= value <= 255,
                0 <= alpha <= 255,
        ;
    }
    (value as u32 * alpha as u32 + 127) / 255
}

/// A pixel of some opacity, its channels scaled by it.
pub fn premultiplied_pixel(color: &Color, alpha: u8) -> (res: u32)
    ensures
        res == pixel(*color, alpha as int),
{
    let red: u32 = scaled_channel(color.r, alpha);
    let green: u32 = scaled_channel(color.g, alpha);
    let blue: u32 = scaled_channel(color.b, alpha);
    alpha as u32 * 0x100_0000 + red * 0x1_0000 + green * 0x100 + blue
}

/// `Vec::try_reserve_exact` on an empty vector: it either makes room for a number of items and
/// leaves the vector empty, or fails. Whether there is enough memory is not stated.
#[verifier::external_body]
fn reserve_pixels(count: usize) -> (res: Option<Vec<u32>>)
    ensures
        res matches Some(pixels) ==> pixels@.len() == 0,
{
    let mut pixels: Vec<u32> = Vec::new();
    match pixels.try_reserve_exact(count) {
        Ok(()) => Some(pixels),
        Err(_) => None,
    }
}

proof fn lemma_row_and_column(i: int, x: int, y: int, width: int)
    requires
        0 <= x < width,
        i == y * width + x,
    ensures
        i / width == y,
        i % width == x,
{
    vstd::arithmetic::div_mod::lemma_fundamental_div_mod_converse(i, width, y, x);
}

/// Draws an outline, row by row, into pixels that are still to come. Its interior is skipped.
pub fn draw_outline(
    mut pixels: Vec<u32>,
    width: i32,
    height: i32,
    thickness: i32,
    radius: i32,
    color: &Color,
) -> (res: Vec<u32>)
    requires
        pixels@.len() == 0,
        0 < width,
        0 < height,
        width * height <= usize::MAX,
    ensures
        res@ == outline_pixels(
            width as int,
            height as int,
            thickness as int,
            radius as int,
            *color,
        ),
{
    let columns: i64 = width as i64;
    let rows: i64 = height as i64;
    let mut corner: i64 = if radius > 0 {
        radius as i64
    } else {
        0
    };
    if corner > columns / 2 {
        corner = columns / 2;
    }
    if corner > rows / 2 {
        corner = rows / 2;
    }
    let mut inset: i64 = if thickness > 1 {
        thickness as i64
    } else {
        1
    };
    let least: i64 = if columns < rows {
        columns
    } else {
        rows
    };
    if inset > (least + 1) / 2 {
        inset = (least + 1) / 2;
    }
    let band: i64 = if corner > inset {
        corner + 1
    } else {
        inset + 1
    };
    let ghost all = outline_pixels(
        width as int,
        height as int,
        thickness as int,
        radius as int,
        *color,
    );
    proof {
        assert(corner == fitting_radius(width as int, height as int, radius as int));
        assert(inset == fitting_thickness(width as int, height as int, thickness as int));
    }
    let mut y: i64 = 0;
    proof {
        assert(0 * columns == 0);
        assert(pixels@ =~= all.take(0));
    }
    while y < rows
        invariant
            0 <= y <= rows,
            columns == width,
            rows == height,
            0 < columns <= 0x7fff_ffff,
            0 < rows <= 0x7fff_ffff,
            0 <= corner <= 0x4000_0000,
            0 <= inset <= 0x4000_0000,
            band == int_max(corner as int, inset as int) + 1,
            corner == fitting_radius(width as int, height as int, radius as int),
            inset == fitting_thickness(width as int, height as int, thickness as int),
            all == outline_pixels(
                width as int,
                height as int,
                thickness as int,
                radius as int,
                *color,
            ),
            pixels@ == all.take(y * columns),
            pixels@.len() == y * columns,
        decreases rows - y,
    {
        let edge_row = y < band || y >= rows - band;
        let mut x: i64 = 0;
        while x < columns
            invariant
                0 <= x <= columns,
                0 <= y < rows,
                columns == width,
                rows == height,
                0 < columns <= 0x7fff_ffff,
                0 < rows <= 0x7fff_ffff,
                0 <= corner <= 0x4000_0000,
                0 <= inset <= 0x4000_0000,
                band == int_max(corner as int, inset as int) + 1,
                corner == fitting_radius(width as int, height as int, radius as int),
                inset == fitting_thickness(width as int, height as int, thickness as int),
                edge_row == (y < band || y >= rows - band),
                all == outline_pixels(
                    width as int,
                    height as int,
                    thickness as int,
                    radius as int,
                    *color,
                ),
                pixels@ == all.take(y * columns + x),
                pixels@.len() == y * columns + x,
            decreases columns - x,
        {
            let ghost before = pixels@;
            let ghost i = y * columns + x;
            proof {
                let (r, c) = (rows as int, columns as int);
                assert(0 <= y * c && y * c + c <= r * c) by (nonlinear_arith)
                    requires
                        0 <= y < r,
                        0 < c,
                ;
                assert(r * c == width * height) by (nonlinear_arith)
                    requires
                        r == height,
                        c == width,
                ;
                lemma_row_and_column(i, x as int, y as int, c);
                assert(all[i] == pixel(
                    *color,
                    ring(color.a as int, x as int, y as int, c, r, inset as int, corner as int),
                ) as u32);
            }
            if edge_row || x < band || x >= columns - band {
                let alpha: u8 = ring_opacity(color.a, x, y, columns, rows, inset, corner);
                pixels.push(premultiplied_pixel(color, alpha));
            } else {
                proof {
                    interior_is_empty(
                        color.a as int,
                        x as int,
                        y as int,
                        columns as int,
                        rows as int,
                        inset as int,
                        corner as int,
                    );
                }
                pixels.push(0);
            }
            proof {
                assert(pixels@ =~= before.push(all[i]));
                assert(all.take(i + 1) =~= all.take(i).push(all[i]));
            }
            x = x + 1;
        }
        proof {
            assert((y + 1) * columns == y * columns + columns) by (nonlinear_arith);
        }
        y = y + 1;
    }
    proof {
        assert(rows * columns == width * height) by (nonlinear_arith)
            requires
                rows == height,
                columns == width,
        ;
        assert(all.take(rows * columns) =~= all);
    }
    pixels
}

/// The number of pixels of an outline, which is the number of items to make room for.
pub fn pixel_count(width: i32, height: i32) -> (res: Result<usize, OutlineError>)
    ensures
        match res {
            Ok(count) => width > 0 && height > 0 && count == width * height,
            Err(OutlineError::InvalidDimensions) => width <= 0 || height <= 0,
            Err(OutlineError::DimensionsOverflow) => width > 0 && height > 0 && width * height
                > usize::MAX,
            Err(_) => false,
        },
{
    if width <= 0 || height <= 0 {
        return Err(OutlineError::InvalidDimensions);
    }
    match (width as usize).checked_mul(height as usize) {
        Some(count) => Ok(count),
        None => Err(OutlineError::DimensionsOverflow),
    }
}

/// The pixels of an outline, row by row. There is memory for them or there is not: that is not
/// stated. All else is.
pub fn rasterize(width: i32, height: i32, thickness: i32, radius: i32, color: &Color) -> (res:
    Result<Vec<u32>, OutlineError>)
    ensures
        (res matches Err(OutlineError::InvalidDimensions)) <==> (width <= 0 || height <= 0),
        (res matches Err(OutlineError::DimensionsOverflow)) <==> (width > 0 && height > 0 && width
            * height > usize::MAX),
        res matches Ok(pixels) ==> pixels@ == outline_pixels(
            width as int,
            height as int,
            thickness as int,
            radius as int,
            *color,
        ),
{
    let count: usize = match pixel_count(width, height) {
        Ok(count) => count,
        Err(error) => {
            return Err(error);
        },
    };
    match reserve_pixels(count) {
        Some(pixels) => Ok(draw_outline(pixels, width, height, thickness, radius, color)),
        None => Err(OutlineError::CannotAllocate),
    }
}

/// A faded opacity is the nearest whole number: it is reached, unless it is 0, and the next one is
/// not, unless that is more than there is to fade.
pub proof fn fading_is_nearest(a: int, reach: int, square: int)
    requires
        0 <= a,
    ensures
        0 <= faded(a, reach, square) <= a,
        faded(a, reach, square) > 0 ==> reaches(a, reach, square, faded(a, reach, square)),
        faded(a, reach, square) < a ==> !reaches(a, reach, square, faded(a, reach, square) + 1),
{
    lemma_greatest_bounds(a, reach, square, a);
    lemma_greatest(a, reach, square, a);
}

proof fn lemma_greatest(a: int, reach: int, square: int, n: int)
    ensures
        ({
            let g = greatest_reached(a, reach, square, n);
            &&& g > 0 ==> reaches(a, reach, square, g)
            &&& 0 <= g < n ==> !reaches(a, reach, square, g + 1)
        }),
    decreases n,
{
    if n > 0 && !reaches(a, reach, square, n) {
        lemma_greatest(a, reach, square, n - 1);
        lemma_greatest_bounds(a, reach, square, n - 1);
    }
}

/// An outline looks the same from the left and from the right, and from above and from below.
pub proof fn outline_is_symmetric(
    a: int,
    x: int,
    y: int,
    width: int,
    height: int,
    inset: int,
    radius: int,
)
    ensures
        ring(a, x, y, width, height, inset, radius) == ring(
            a,
            width - 1 - x,
            y,
            width,
            height,
            inset,
            radius,
        ),
        ring(a, x, y, width, height, inset, radius) == ring(
            a,
            x,
            height - 1 - y,
            width,
            height,
            inset,
            radius,
        ),
{
    let rest = int_max(radius - inset, 0);
    assert(beyond(x, width, radius) == beyond(width - 1 - x, width, radius));
    assert(beyond(y, height, radius) == beyond(height - 1 - y, height, radius));
    assert(beyond(x - inset, width - 2 * inset, rest) == beyond(
        width - 1 - x - inset,
        width - 2 * inset,
        rest,
    ));
    assert(beyond(y - inset, height - 2 * inset, rest) == beyond(
        height - 1 - y - inset,
        height - 2 * inset,
        rest,
    ));
}

/// No pixel of an outline is more opaque than its color, and no channel of a pixel is greater than
/// the opacity of the pixel.
pub proof fn pixels_are_premultiplied(
    value: int,
    a: int,
    x: int,
    y: int,
    width: int,
    height: int,
    inset: int,
    radius: int,
)
    requires
        0 <= a <= 255,
        0 <= value <= 255,
    ensures
        0 <= ring(a, x, y, width, height, inset, radius) <= a,
        0 <= scaled(value, ring(a, x, y, width, height, inset, radius)) <= ring(
            a,
            x,
            y,
            width,
            height,
            inset,
            radius,
        ),
{
    lemma_filled_bounds(a, x, y, width, height, radius);
    let rest = int_max(radius - inset, 0);
    lemma_filled_bounds(a, x - inset, y - inset, width - 2 * inset, height - 2 * inset, rest);
    let alpha = ring(a, x, y, width, height, inset, radius);
    assert(0 <= value * alpha <= 255 * alpha) by (nonlinear_arith)
        requires
            0 <= value <= 255,
            0 <= alpha,
    ;
}

/// The middle of an outline is empty.
pub proof fn interior_is_empty(
    a: int,
    x: int,
    y: int,
    width: int,
    height: int,
    inset: int,
    radius: int,
)
    requires
        0 <= a,
        0 <= inset,
        0 <= radius,
        int_max(radius, inset) <= x < width - int_max(radius, inset),
        int_max(radius, inset) <= y < height - int_max(radius, inset),
    ensures
        ring(a, x, y, width, height, inset, radius) == 0,
{
    assert(beyond(x, width, radius) < 0);
    assert(beyond(y, height, radius) < 0);
    let rest = int_max(radius - inset, 0);
    assert(beyond(x - inset, width - 2 * inset, rest) < 0);
    assert(beyond(y - inset, height - 2 * inset, rest) < 0);
}

/// Away from the corners an outline is exactly as thick as asked for, with no faded pixels, along
/// the upper and the lower edge.
pub proof fn straight_edges_are_crisp(
    a: int,
    x: int,
    y: int,
    width: int,
    height: int,
    inset: int,
    radius: int,
)
    requires
        0 <= a,
        0 < inset,
        0 <= radius,
        2 * inset < height,
        2 * radius <= height,
        int_max(radius, inset) <= x < width - int_max(radius, inset),
        0 <= y < height,
    ensures
        ring(a, x, y, width, height, inset, radius) == (if y < inset || y >= height - inset {
            a
        } else {
            0
        }),
{
    assert(beyond(x, width, radius) < 0);
    let rest = int_max(radius - inset, 0);
    assert(beyond(x - inset, width - 2 * inset, rest) < 0);
    assert(beyond(y, height, radius) <= 2 * radius);
    assert(beyond(y - inset, height - 2 * inset, rest) <= 2 * rest <==> inset <= y < height
        - inset);
}

/// The same along the left and the right edge.
pub proof fn upright_edges_are_crisp(
    a: int,
    x: int,
    y: int,
    width: int,
    height: int,
    inset: int,
    radius: int,
)
    requires
        0 <= a,
        0 < inset,
        0 <= radius,
        2 * inset < width,
        2 * radius <= width,
        int_max(radius, inset) <= y < height - int_max(radius, inset),
        0 <= x < width,
    ensures
        ring(a, x, y, width, height, inset, radius) == (if x < inset || x >= width - inset {
            a
        } else {
            0
        }),
{
    assert(beyond(y, height, radius) < 0);
    let rest = int_max(radius - inset, 0);
    assert(beyond(y - inset, height - 2 * inset, rest) < 0);
    assert(beyond(x, width, radius) <= 2 * radius);
    assert(beyond(x - inset, width - 2 * inset, rest) <= 2 * rest <==> inset <= x < width - inset);
}

} // verus!
