use vstd::prelude::*;
use vstd::arithmetic::div_mod::{lemma_div_is_ordered, lemma_div_by_multiple, lemma_div_pos_is_pos, lemma_div_decreases};
use vstd::arithmetic::mul::lemma_mul_inequality;

verus! {

/// Width of the screen in pixels.
pub const SCREEN_WIDTH: i32 = 480;

/// Height of the screen in pixels.
pub const SCREEN_HEIGHT: i32 = 272;

/// A pixel position; coordinates may lie off screen.
#[derive(Clone, Copy, Debug, PartialEq, Eq, Structural)]
pub struct Point {
    pub x: i32,
    pub y: i32,
}

/// A color of the graphics layer; alpha 0 erases a pixel.
#[derive(Clone, Copy, Debug, PartialEq, Eq, Structural)]
pub struct Color {
    pub r: u8,
    pub g: u8,
    pub b: u8,
    pub a: u8,
}

impl Color {
    pub fn rgba(r: u8, g: u8, b: u8, a: u8) -> (c: Color)
        ensures
            c == (Color { r, g, b, a }),
    {
        Color { r, g, b, a }
    }

    pub fn rgb(r: u8, g: u8, b: u8) -> (c: Color)
        ensures
            c == (Color { r, g, b, a: 255 }),
    {
        Color { r, g, b, a: 255 }
    }

    /// The erase color: fully transparent black.
    pub fn transparent() -> (c: Color)
        ensures
            c == Color::spec_transparent(),
    {
        Color { r: 0, g: 0, b: 0, a: 0 }
    }

    pub open spec fn spec_transparent() -> Color {
        Color { r: 0, g: 0, b: 0, a: 0 }
    }
}

/// Selects the x coordinate of a point.
pub open spec fn px() -> spec_fn(Point) -> int {
    |p: Point| p.x as int
}

/// Selects the y coordinate of a point.
pub open spec fn py() -> spec_fn(Point) -> int {
    |p: Point| p.y as int
}

/// The least value of `f` over a non-empty sequence of points.
pub open spec fn lowest(pts: Seq<Point>, f: spec_fn(Point) -> int) -> int
    decreases pts.len(),
{
    if pts.len() <= 1 {
        f(pts[0])
    } else {
        let m = lowest(pts.drop_last(), f);
        if f(pts.last()) < m {
            f(pts.last())
        } else {
            m
        }
    }
}

/// The greatest value of `f` over a non-empty sequence of points.
pub open spec fn highest(pts: Seq<Point>, f: spec_fn(Point) -> int) -> int
    decreases pts.len(),
{
    if pts.len() <= 1 {
        f(pts[0])
    } else {
        let m = highest(pts.drop_last(), f);
        if f(pts.last()) > m {
            f(pts.last())
        } else {
            m
        }
    }
}

pub open spec fn clamp(v: int, lo: int, hi: int) -> int {
    if v < lo {
        lo
    } else if v > hi {
        hi
    } else {
        v
    }
}

/// The bounding box of the points, clamped into the screen rectangle.
pub open spec fn bounds(pts: Seq<Point>) -> (Point, Point) {
    (
        Point {
            x: clamp(lowest(pts, px()), 0, SCREEN_WIDTH - 1) as i32,
            y: clamp(lowest(pts, py()), 0, SCREEN_HEIGHT - 1) as i32,
        },
        Point {
            x: clamp(highest(pts, px()), 0, SCREEN_WIDTH - 1) as i32,
            y: clamp(highest(pts, py()), 0, SCREEN_HEIGHT - 1) as i32,
        },
    )
}

pub open spec fn on_screen(p: Point) -> bool {
    0 <= p.x < SCREEN_WIDTH && 0 <= p.y < SCREEN_HEIGHT
}

proof fn lemma_extremes_step(pts: Seq<Point>, i: int, f: spec_fn(Point) -> int)
    requires
        1 <= i < pts.len(),
    ensures
        lowest(pts.subrange(0, i + 1), f) == if f(pts[i]) < lowest(pts.subrange(0, i), f) {
            f(pts[i])
        } else {
            lowest(pts.subrange(0, i), f)
        },
        highest(pts.subrange(0, i + 1), f) == if f(pts[i]) > highest(pts.subrange(0, i), f) {
            f(pts[i])
        } else {
            highest(pts.subrange(0, i), f)
        },
{
    assert(pts.subrange(0, i + 1).drop_last() =~= pts.subrange(0, i));
}

pub open spec fn abs(v: int) -> int {
    if v < 0 {
        -v
    } else {
        v
    }
}

/// Integer division rounding toward zero.
pub open spec fn trunc_div(a: int, b: int) -> int {
    let q = abs(a) / abs(b);
    if (a < 0) != (b < 0) {
        -q
    } else {
        q
    }
}

/// A quotient is no larger in magnitude than any `c` with `|a| <= |b| * |c|`.
pub proof fn lemma_trunc_div_bound(a: int, b: int, c: int)
    requires
        b != 0,
        abs(a) <= abs(b) * abs(c),
    ensures
        abs(trunc_div(a, b)) <= abs(c),
{
    assert(abs(b) * abs(c) == abs(c) * abs(b)) by (nonlinear_arith);
    lemma_div_pos_is_pos(abs(a), abs(b));
    lemma_div_is_ordered(abs(a), abs(c) * abs(b), abs(b));
    lemma_div_by_multiple(abs(c), abs(b));
}

/// Division rounding toward zero on wide integers.
pub fn trunc_div_i128(a: i128, b: i128) -> (r: i128)
    requires
        b != 0,
        -0x1_0000_0000_0000_0000_0000_0000 < a < 0x1_0000_0000_0000_0000_0000_0000,
        -0x1_0000_0000_0000_0000_0000_0000 < b < 0x1_0000_0000_0000_0000_0000_0000,
    ensures
        r == trunc_div(a as int, b as int),
{
    let ua: u128 = if a < 0 { (-a) as u128 } else { a as u128 };
    let ub: u128 = if b < 0 { (-b) as u128 } else { b as u128 };
    let q: u128 = ua / ub;
    proof {
        if ua > 0 && ub > 1 {
            lemma_div_decreases(ua as int, ub as int);
        } else if ub == 1 {
            lemma_div_by_multiple(ua as int, 1);
        }
    }
    if (a < 0) != (b < 0) {
        -(q as i128)
    } else {
        q as i128
    }
}

fn clamp_i32(v: i32, lo: i32, hi: i32) -> (r: i32)
    requires
        lo <= hi,
    ensures
        r == clamp(v as int, lo as int, hi as int),
{
    if v < lo {
        lo
    } else if v > hi {
        hi
    } else {
        v
    }
}

/// The bounding box `(min, max)` of a non-empty point sequence, each
/// coordinate clamped into `[0, 480) x [0, 272)`.
pub fn get_bounds(points: &[Point]) -> (r: (Point, Point))
    requires
        points@.len() > 0,
    ensures
        r == bounds(points@),
        on_screen(r.0),
        on_screen(r.1),
{
    let mut min_x: i32 = points[0].x;
    let mut min_y: i32 = points[0].y;
    let mut max_x: i32 = min_x;
    let mut max_y: i32 = min_y;
    proof {
        assert(points@.subrange(0, 1).len() == 1);
    }
    let mut i: usize = 1;
    while i < points.len()
        invariant
            1 <= i <= points@.len(),
            min_x == lowest(points@.subrange(0, i as int), px()),
            min_y == lowest(points@.subrange(0, i as int), py()),
            max_x == highest(points@.subrange(0, i as int), px()),
            max_y == highest(points@.subrange(0, i as int), py()),
        decreases points@.len() - i,
    {
        proof {
            lemma_extremes_step(points@, i as int, px());
            lemma_extremes_step(points@, i as int, py());
        }
        let p = points[i];
        if p.x < min_x {
            min_x = p.x;
        }
        if p.y < min_y {
            min_y = p.y;
        }
        if p.x > max_x {
            max_x = p.x;
        }
        if p.y > max_y {
            max_y = p.y;
        }
        i = i + 1;
    }
    proof {
        assert(points@.subrange(0, points@.len() as int) =~= points@);
    }
    (
        Point { x: clamp_i32(min_x, 0, SCREEN_WIDTH - 1), y: clamp_i32(min_y, 0, SCREEN_HEIGHT - 1) },
        Point { x: clamp_i32(max_x, 0, SCREEN_WIDTH - 1), y: clamp_i32(max_y, 0, SCREEN_HEIGHT - 1) },
    )
}

} // verus!
