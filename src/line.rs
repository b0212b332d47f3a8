use vstd::prelude::*;
use vstd::arithmetic::div_mod::{lemma_div_is_ordered, lemma_hoist_over_denominator, lemma_div_by_multiple};
use crate::geometry::{Point, Color, abs, trunc_div, trunc_div_i128, lemma_trunc_div_bound};
use crate::layer::{Pixel, ColorLayer};

verus! {

/// The number of steps of a segment: its larger extent along an axis.
pub open spec fn line_len(a: Point, b: Point) -> int {
    let dx = abs(b.x - a.x);
    let dy = abs(b.y - a.y);
    if dx >= dy {
        dx
    } else {
        dy
    }
}

/// The offset along one axis after `i` of `n` steps over a distance `d`.
pub open spec fn line_offset(i: int, d: int, n: int) -> int {
    if n == 0 {
        0
    } else {
        trunc_div(i * d, n)
    }
}

/// The `i`-th pixel of the segment from `a` to `b`.
pub open spec fn line_pixel(a: Point, b: Point, color: Color, i: int) -> Pixel {
    let n = line_len(a, b);
    Pixel {
        x: (a.x + line_offset(i, b.x - a.x, n)) as i32,
        y: (a.y + line_offset(i, b.y - a.y, n)) as i32,
        color,
    }
}

/// The pixels of the segment from `a` to `b`, one per step, both ends included.
pub open spec fn line_pixels(a: Point, b: Point, color: Color) -> Seq<Pixel> {
    Seq::new((line_len(a, b) + 1) as nat, |i: int| line_pixel(a, b, color, i))
}

/// After `i` of `n` steps the offset lies between 0 and `d`.
proof fn lemma_line_offset(i: int, d: int, n: int)
    requires
        0 <= i <= n,
        abs(d) <= n,
    ensures
        d >= 0 ==> 0 <= line_offset(i, d, n) <= d,
        d < 0 ==> d <= line_offset(i, d, n) <= 0,
{
    if n > 0 {
        assert(abs(i * d) <= abs(n) * abs(d)) by (nonlinear_arith)
            requires
                0 <= i <= n,
        ;
        assert(d >= 0 ==> i * d >= 0) by (nonlinear_arith)
            requires
                0 <= i,
        ;
        assert(d < 0 ==> i * d <= 0) by (nonlinear_arith)
            requires
                0 <= i,
        ;
        lemma_trunc_div_bound(i * d, n, d);
    }
}

/// One more step moves the offset by at most one.
proof fn lemma_line_step(i: int, d: int, n: int)
    requires
        0 <= i < n,
        abs(d) <= n,
    ensures
        abs(line_offset(i + 1, d, n) - line_offset(i, d, n)) <= 1,
{
    let m = abs(d);
    assert(abs(i * d) == i * m && abs((i + 1) * d) == i * m + m) by (nonlinear_arith)
        requires
            0 <= i,
            m == abs(d),
    ;
    assert(d >= 0 ==> i * d >= 0 && (i + 1) * d >= 0) by (nonlinear_arith)
        requires
            0 <= i,
    ;
    assert(d < 0 ==> i * d <= 0 && (i + 1) * d < 0) by (nonlinear_arith)
        requires
            0 <= i,
    ;
    assert(i * m >= 0) by (nonlinear_arith)
        requires
            0 <= i,
            0 <= m,
    ;
    lemma_div_is_ordered(i * m, i * m + m, n);
    lemma_div_is_ordered(i * m + m, i * m + n, n);
    lemma_hoist_over_denominator(i * m, 1, n as nat);
}

/// The segment's pixels form a path with no gaps from `a` to `b`: it starts
/// at `a`, ends at `b`, and each pixel touches the next, sideways or
/// diagonally.
pub proof fn lemma_line_connected(a: Point, b: Point, color: Color)
    ensures
        line_pixels(a, b, color)[0].x == a.x && line_pixels(a, b, color)[0].y == a.y,
        line_pixels(a, b, color).last().x == b.x && line_pixels(a, b, color).last().y == b.y,
        forall|i: int|
            0 <= i < line_len(a, b) ==> abs(#[trigger] line_pixels(a, b, color)[i + 1].x
                - line_pixels(a, b, color)[i].x) <= 1 && abs(line_pixels(a, b, color)[i + 1].y
                - line_pixels(a, b, color)[i].y) <= 1,
{
    let n = line_len(a, b);
    let dx = b.x - a.x;
    let dy = b.y - a.y;
    lemma_line_offset(0, dx, n);
    lemma_line_offset(0, dy, n);
    lemma_line_offset(n, dx, n);
    lemma_line_offset(n, dy, n);
    if n > 0 {
        assert(abs(n * dx) == abs(dx) * n && abs(n * dy) == abs(dy) * n) by (nonlinear_arith)
            requires
                n > 0,
        ;
        assert(dx >= 0 ==> n * dx >= 0) by (nonlinear_arith)
            requires
                n > 0,
        ;
        assert(dy >= 0 ==> n * dy >= 0) by (nonlinear_arith)
            requires
                n > 0,
        ;
        assert(dx < 0 ==> n * dx < 0) by (nonlinear_arith)
            requires
                n > 0,
        ;
        assert(dy < 0 ==> n * dy < 0) by (nonlinear_arith)
            requires
                n > 0,
        ;
        lemma_div_by_multiple(abs(dx), n);
        lemma_div_by_multiple(abs(dy), n);
        assert(0 * dx == 0 && 0 * dy == 0);
    }
    assert forall|i: int| 0 <= i < line_len(a, b) implies abs(
        #[trigger] line_pixels(a, b, color)[i + 1].x - line_pixels(a, b, color)[i].x,
    ) <= 1 && abs(line_pixels(a, b, color)[i + 1].y - line_pixels(a, b, color)[i].y) <= 1 by {
        lemma_line_offset(i, dx, n);
        lemma_line_offset(i + 1, dx, n);
        lemma_line_offset(i, dy, n);
        lemma_line_offset(i + 1, dy, n);
        lemma_line_step(i, dx, n);
        lemma_line_step(i, dy, n);
    }
}

/// Writes the pixels of the segment from `from` to `to` in order, starting
/// at `from` and ending at `to`.
pub fn draw_line(layer: &mut ColorLayer, from: &Point, to: &Point, color: Color)
    ensures
        final(layer).writes@ == old(layer).writes@ + line_pixels(*from, *to, color),
{
    let dx: i64 = to.x as i64 - from.x as i64;
    let dy: i64 = to.y as i64 - from.y as i64;
    let adx: i64 = if dx < 0 { -dx } else { dx };
    let ady: i64 = if dy < 0 { -dy } else { dy };
    let n: i64 = if adx >= ady { adx } else { ady };
    let ghost start = old(layer).writes@;
    let ghost all = line_pixels(*from, *to, color);
    let mut i: i64 = 0;
    while i <= n
        invariant
            0 <= i <= n + 1,
            n == line_len(*from, *to),
            dx == to.x - from.x,
            dy == to.y - from.y,
            all == line_pixels(*from, *to, color),
            layer.writes@ == start + all.take(i as int),
        decreases n + 1 - i,
    {
        proof {
            lemma_line_offset(i as int, dx as int, n as int);
            lemma_line_offset(i as int, dy as int, n as int);
            assert(i * dx <= n * abs(dx as int) && -(i * dx) <= n * abs(dx as int)) by (nonlinear_arith)
                requires
                    0 <= i <= n,
            ;
            assert(i * dy <= n * abs(dy as int) && -(i * dy) <= n * abs(dy as int)) by (nonlinear_arith)
                requires
                    0 <= i <= n,
            ;
            assert(n * abs(dx as int) <= 0x1_0000_0000 * 0x1_0000_0000) by (nonlinear_arith)
                requires
                    0 <= n <= 0x1_0000_0000,
                    abs(dx as int) <= 0x1_0000_0000,
            ;
            assert(n * abs(dy as int) <= 0x1_0000_0000 * 0x1_0000_0000) by (nonlinear_arith)
                requires
                    0 <= n <= 0x1_0000_0000,
                    abs(dy as int) <= 0x1_0000_0000,
            ;
        }
        let ox: i128 = if n == 0 { 0 } else { trunc_div_i128(i as i128 * dx as i128, n as i128) };
        let oy: i128 = if n == 0 { 0 } else { trunc_div_i128(i as i128 * dy as i128, n as i128) };
        let x: i32 = (from.x as i128 + ox) as i32;
        let y: i32 = (from.y as i128 + oy) as i32;
        layer.set_pixel(x, y, color);
        proof {
            assert(all[i as int] == Pixel { x, y, color });
            assert(all.take(i + 1) =~= all.take(i as int).push(all[i as int]));
        }
        i = i + 1;
    }
    proof {
        assert(all.take(i as int) =~= all);
    }
}

} // verus!
