use vstd::prelude::*;
use vstd::relations::{sorted_by, total_ordering};
use vstd::seq_lib::lemma_sorted_unique;
use crate::geometry::{
    Point, Color, abs, trunc_div, trunc_div_i128, lemma_trunc_div_bound, bounds, get_bounds,
    on_screen,
};
use crate::layer::{Pixel, ColorLayer};
use crate::line::{draw_line, line_pixels};

verus! {

broadcast use vstd::seq_lib::group_to_multiset_ensures, vstd::multiset::group_multiset_axioms;

/// The index of the point before `i` on a closed path of `n` points.
pub open spec fn prev(n: int, i: int) -> int {
    if i == 0 {
        n - 1
    } else {
        i - 1
    }
}

/// Whether row `y` crosses the edge from `a` to `b`: one end lies above the
/// row and the other on or below it.
pub open spec fn crosses(a: Point, b: Point, y: int) -> bool {
    (a.y < y && b.y >= y) || (b.y < y && a.y >= y)
}

/// Where row `y` meets the line through `a` and `b`, rounded toward `a.x`.
pub open spec fn cross_x(a: Point, b: Point, y: int) -> int {
    a.x + trunc_div((y - a.y) * (b.x - a.x), b.y - a.y)
}

/// The crossings of row `y` with the edges ending at the first `k` points.
pub open spec fn crossings_upto(pts: Seq<Point>, y: int, k: nat) -> Seq<int>
    decreases k,
{
    if k == 0 {
        Seq::empty()
    } else {
        let i = k - 1;
        let a = pts[i];
        let b = pts[prev(pts.len() as int, i)];
        let earlier = crossings_upto(pts, y, (k - 1) as nat);
        if crosses(a, b, y) {
            earlier.push(cross_x(a, b, y))
        } else {
            earlier
        }
    }
}

/// The crossings of row `y` with all edges of the closed polygon, in edge order.
pub open spec fn crossings(pts: Seq<Point>, y: int) -> Seq<int> {
    crossings_upto(pts, y, pts.len())
}

pub open spec fn int_leq() -> spec_fn(int, int) -> bool {
    |a: int, b: int| a <= b
}

/// The crossings of row `y`, in ascending order.
pub open spec fn sorted_crossings(pts: Seq<Point>, y: int) -> Seq<int> {
    crossings(pts, y).sort_by(int_leq())
}

/// The pixels `lo..hi` of row `y`; none where `hi <= lo`.
pub open spec fn span(lo: int, hi: int, y: int, color: Color) -> Seq<Pixel> {
    Seq::new(
        if hi > lo {
            (hi - lo) as nat
        } else {
            0
        },
        |k: int| Pixel { x: (lo + k) as i32, y: y as i32, color },
    )
}

pub open spec fn max_int(a: int, b: int) -> int {
    if a >= b {
        a
    } else {
        b
    }
}

pub open spec fn min_int(a: int, b: int) -> int {
    if a <= b {
        a
    } else {
        b
    }
}

/// The span between the crossings `2k` and `2k + 1`, clipped to `lo..hi`.
pub open spec fn clipped_span(s: Seq<int>, k: int, lo: int, hi: int, y: int, color: Color) -> Seq<
    Pixel,
> {
    span(max_int(s[2 * k], lo), min_int(s[2 * k + 1], hi), y, color)
}

/// The clipped spans of the first `m` pairs of crossings, in order.
pub open spec fn spans_upto(s: Seq<int>, m: nat, lo: int, hi: int, y: int, color: Color) -> Seq<
    Pixel,
>
    decreases m,
{
    if m == 0 {
        Seq::empty()
    } else {
        spans_upto(s, (m - 1) as nat, lo, hi, y, color) + clipped_span(
            s,
            m - 1,
            lo,
            hi,
            y,
            color,
        )
    }
}

/// The pixels that filling writes on row `y`.
pub open spec fn row_pixels(pts: Seq<Point>, color: Color, y: int) -> Seq<Pixel> {
    let b = bounds(pts);
    let s = sorted_crossings(pts, y);
    spans_upto(s, s.len() / 2, b.0.x as int, b.1.x as int, y, color)
}

/// The pixels of the first `count` rows of the bounding box.
pub open spec fn rows_upto(pts: Seq<Point>, color: Color, count: nat) -> Seq<Pixel>
    decreases count,
{
    if count == 0 {
        Seq::empty()
    } else {
        rows_upto(pts, color, (count - 1) as nat) + row_pixels(
            pts,
            color,
            bounds(pts).0.y + count - 1,
        )
    }
}

/// The pixels that filling the polygon writes: rows from the top of the
/// bounding box up to, not including, its bottom.
pub open spec fn fill_pixels(pts: Seq<Point>, color: Color) -> Seq<Pixel> {
    let b = bounds(pts);
    rows_upto(
        pts,
        color,
        if b.1.y > b.0.y {
            (b.1.y - b.0.y) as nat
        } else {
            0
        },
    )
}

/// The outline's segments ending at the first `k` points, each starting at
/// the point before.
pub open spec fn outline_upto(pts: Seq<Point>, color: Color, k: nat) -> Seq<Pixel>
    decreases k,
{
    if k == 0 {
        Seq::empty()
    } else {
        outline_upto(pts, color, (k - 1) as nat) + line_pixels(
            pts[prev(pts.len() as int, k - 1)],
            pts[k - 1],
            color,
        )
    }
}

/// The pixels that drawing the polygon writes.
pub open spec fn polygon_pixels(pts: Seq<Point>, color: Color, fill: bool) -> Seq<Pixel> {
    if pts.len() < 3 {
        Seq::empty()
    } else if fill {
        fill_pixels(pts, color)
    } else {
        outline_upto(pts, color, pts.len())
    }
}

pub open spec fn as_ints(v: Seq<i64>) -> Seq<int> {
    v.map_values(|x: i64| x as int)
}

proof fn lemma_cross_x_near(a: Point, b: Point, y: int)
    requires
        crosses(a, b, y),
    ensures
        abs(cross_x(a, b, y) - a.x) <= abs(b.x - a.x),
{
    let d = b.y - a.y;
    let t = y - a.y;
    let c = b.x - a.x;
    assert(abs(t) <= abs(d));
    assert(abs(t * c) <= abs(d) * abs(c)) by (nonlinear_arith)
        requires
            abs(t) <= abs(d),
    ;
    lemma_trunc_div_bound(t * c, d, c);
}

/// The crossings of row `y` with the polygon's edges, in edge order.
fn crossings_of_row(points: &[Point], y: i32) -> (nodes: Vec<i64>)
    requires
        points@.len() >= 1,
    ensures
        as_ints(nodes@) == crossings(points@, y as int),
{
    let n = points.len();
    let mut nodes: Vec<i64> = Vec::new();
    let mut j: usize = n - 1;
    let mut i: usize = 0;
    while i < n
        invariant
            n == points@.len(),
            n >= 1,
            0 <= i <= n,
            i < n ==> j == prev(n as int, i as int),
            as_ints(nodes@) == crossings_upto(points@, y as int, i as nat),
        decreases n - i,
    {
        let a = points[i];
        let b = points[j];
        if (a.y < y && b.y >= y) || (b.y < y && a.y >= y) {
            let t: i128 = y as i128 - a.y as i128;
            let c: i128 = b.x as i128 - a.x as i128;
            let d: i128 = b.y as i128 - a.y as i128;
            proof {
                lemma_cross_x_near(a, b, y as int);
                assert(abs(t * c) <= 0x1_0000_0000 * 0x1_0000_0000) by (nonlinear_arith)
                    requires
                        abs(t as int) <= 0x1_0000_0000,
                        abs(c as int) <= 0x1_0000_0000,
                ;
            }
            let q: i128 = trunc_div_i128(t * c, d);
            let x: i64 = (a.x as i128 + q) as i64;
            let ghost before = nodes@;
            nodes.push(x);
            proof {
                assert(as_ints(nodes@) =~= as_ints(before).push(x as int));
            }
        }
        j = i;
        i = i + 1;
    }
    nodes
}

proof fn lemma_swap_multiset(s: Seq<int>, i: int, j: int)
    requires
        0 <= i < s.len(),
        0 <= j < s.len(),
        i != j,
    ensures
        s.update(i, s[j]).update(j, s[i]).to_multiset() =~= s.to_multiset(),
{
    let s1 = s.update(i, s[j]);
    assert(s1[j] == s[j]);
    assert(s1.to_multiset() == s.to_multiset().insert(s[j]).remove(s[i]));
    assert(s1.update(j, s[i]).to_multiset() == s1.to_multiset().insert(s[i]).remove(s[j]));
}

/// Sorts the crossings ascending, by insertion.
fn sort_nodes(nodes: &mut Vec<i64>)
    ensures
        as_ints(final(nodes)@).to_multiset() == as_ints(old(nodes)@).to_multiset(),
        forall|p: int, q: int|
            0 <= p < q < final(nodes)@.len() ==> final(nodes)@[p] <= final(nodes)@[q],
        final(nodes)@.len() == old(nodes)@.len(),
{
    let n = nodes.len();
    let ghost orig = as_ints(nodes@).to_multiset();
    let mut k: usize = 1;
    while k < n
        invariant
            n == nodes@.len(),
            1 <= k || n == 0,
            k <= n || n == 0,
            as_ints(nodes@).to_multiset() == orig,
            forall|p: int, q: int| 0 <= p < q < k && q < n ==> nodes@[p] <= nodes@[q],
        decreases n - k,
    {
        let mut j: usize = k;
        while j > 0 && nodes[j - 1] > nodes[j]
            invariant
                n == nodes@.len(),
                0 <= j <= k < n,
                as_ints(nodes@).to_multiset() == orig,
                forall|p: int, q: int|
                    0 <= p < q <= k && p != j && q != j ==> nodes@[p] <= nodes@[q],
                forall|q: int| j < q <= k ==> nodes@[j as int] <= nodes@[q],
            decreases j,
        {
            let lo = nodes[j - 1];
            let hi = nodes[j];
            let ghost g = as_ints(nodes@);
            nodes.set(j - 1, hi);
            nodes.set(j, lo);
            proof {
                lemma_swap_multiset(g, j - 1, j as int);
                assert(as_ints(nodes@) =~= g.update(j - 1, g[j as int]).update(j as int, g[j - 1]));
            }
            j = j - 1;
        }
        k = k + 1;
    }
}

proof fn lemma_int_leq_total()
    ensures
        total_ordering(int_leq()),
{
}

/// Writes the pixels `lo..hi` of row `y`.
fn fill_span(layer: &mut ColorLayer, lo: i64, hi: i64, y: i32, color: Color)
    requires
        0 <= lo,
        hi < 0x1000_0000,
    ensures
        final(layer).writes@ == old(layer).writes@ + span(lo as int, hi as int, y as int, color),
{
    let ghost start = old(layer).writes@;
    let ghost all = span(lo as int, hi as int, y as int, color);
    let mut x: i64 = lo;
    while x < hi
        invariant
            0 <= lo <= x,
            x <= if hi > lo {
                hi
            } else {
                lo
            },
            hi < 0x1000_0000,
            all == span(lo as int, hi as int, y as int, color),
            layer.writes@ == start + all.take(x - lo),
        decreases hi - x,
    {
        layer.set_pixel(x as i32, y, color);
        proof {
            assert(all.take(x - lo + 1) =~= all.take(x - lo).push(all[x - lo]));
        }
        x = x + 1;
    }
    proof {
        assert(x - lo == all.len());
        assert(all.take(x - lo) =~= all);
    }
}

/// Once a pair starts at or right of `hi`, every later pair is empty too.
proof fn lemma_spans_rest_empty(
    s: Seq<int>,
    k: nat,
    m: nat,
    lo: int,
    hi: int,
    y: int,
    color: Color,
)
    requires
        k <= m,
        2 * m <= s.len(),
        2 * k < s.len(),
        s[2 * k as int] >= hi,
        sorted_by(s, int_leq()),
    ensures
        spans_upto(s, m, lo, hi, y, color) == spans_upto(s, k, lo, hi, y, color),
    decreases m - k,
{
    if m > k {
        lemma_spans_rest_empty(s, k, (m - 1) as nat, lo, hi, y, color);
        assert(int_leq()(s[2 * k as int], s[2 * (m - 1)]) || 2 * k as int == 2 * (m - 1));
        assert(clipped_span(s, m - 1, lo, hi, y, color) =~= Seq::empty());
        assert(spans_upto(s, m, lo, hi, y, color) =~= spans_upto(s, (m - 1) as nat, lo, hi, y, color));
    }
}

/// Fills one row from its crossings, sorted ascending.
fn fill_row(layer: &mut ColorLayer, nodes: &Vec<i64>, lo: i32, hi: i32, y: i32, color: Color)
    requires
        0 <= lo <= hi < 480,
        sorted_by(as_ints(nodes@), int_leq()),
    ensures
        final(layer).writes@ == old(layer).writes@ + spans_upto(
            as_ints(nodes@),
            nodes@.len() / 2,
            lo as int,
            hi as int,
            y as int,
            color,
        ),
{
    let ghost s = as_ints(nodes@);
    let ghost start = old(layer).writes@;
    let len = nodes.len();
    let pairs = len / 2;
    let mut k: usize = 0;
    while k < pairs
        invariant
            len == nodes@.len(),
            pairs == len / 2,
            0 <= k <= pairs,
            s == as_ints(nodes@),
            0 <= lo <= hi < 480,
            sorted_by(s, int_leq()),
            layer.writes@ == start + spans_upto(s, k as nat, lo as int, hi as int, y as int, color),
        ensures
            layer.writes@ == start + spans_upto(s, pairs as nat, lo as int, hi as int, y as int, color),
        decreases pairs - k,
    {
        let i: usize = k + k;
        let a = nodes[i];
        let b = nodes[i + 1];
        if a >= hi as i64 {
            proof {
                lemma_spans_rest_empty(s, k as nat, pairs as nat, lo as int, hi as int, y as int, color);
            }
            break;
        }
        let from: i64 = if a < lo as i64 { lo as i64 } else { a };
        let to: i64 = if b > hi as i64 { hi as i64 } else { b };
        fill_span(layer, from, to, y, color);
        proof {
            assert(start + spans_upto(s, k as nat, lo as int, hi as int, y as int, color) + span(from as int, to as int, y as int, color)
                =~= start + spans_upto(s, (k + 1) as nat, lo as int, hi as int, y as int, color));
        }
        k = k + 1;
    }
}

/// Fills the polygon row by row, from the top of its bounding box down to,
/// not including, its bottom.
fn fill_polygon(layer: &mut ColorLayer, points: &[Point], color: Color)
    requires
        points@.len() >= 1,
    ensures
        final(layer).writes@ == old(layer).writes@ + fill_pixels(points@, color),
{
    let ghost start = old(layer).writes@;
    let b = get_bounds(points);
    let top = b.0.y;
    let mut y: i32 = top;
    while y < b.1.y
        invariant
            b == bounds(points@),
            on_screen(b.0),
            on_screen(b.1),
            top == b.0.y,
            top <= y,
            y <= if b.1.y > top {
                b.1.y
            } else {
                top
            },
            points@.len() >= 1,
            layer.writes@ == start + rows_upto(points@, color, (y - top) as nat),
        decreases b.1.y - y,
    {
        let mut nodes = crossings_of_row(points, y);
        sort_nodes(&mut nodes);
        proof {
            let c = crossings(points@, y as int);
            lemma_int_leq_total();
            c.lemma_sort_by_ensures(int_leq());
            assert(sorted_by(as_ints(nodes@), int_leq()));
            lemma_sorted_unique(as_ints(nodes@), c.sort_by(int_leq()), int_leq());
        }
        fill_row(layer, &nodes, b.0.x, b.1.x, y, color);
        proof {
            assert(start + rows_upto(points@, color, (y - top) as nat) + row_pixels(points@, color, y as int)
                =~= start + rows_upto(points@, color, (y + 1 - top) as nat));
        }
        y = y + 1;
    }
    proof {
        assert((y - top) as nat == if b.1.y > b.0.y {
            (b.1.y - b.0.y) as nat
        } else {
            0
        });
    }
}

/// The width of the span `lo..hi`.
pub open spec fn span_width(lo: int, hi: int) -> int {
    if hi > lo {
        hi - lo
    } else {
        0
    }
}

/// The summed widths of the clipped spans of the first `m` pairs.
pub open spec fn widths_upto(s: Seq<int>, m: nat, lo: int, hi: int) -> int
    decreases m,
{
    if m == 0 {
        0
    } else {
        widths_upto(s, (m - 1) as nat, lo, hi) + span_width(
            max_int(s[2 * (m - 1)], lo),
            min_int(s[2 * (m - 1) + 1], hi),
        )
    }
}

proof fn lemma_spans_len(s: Seq<int>, m: nat, lo: int, hi: int, y: int, color: Color)
    requires
        2 * m <= s.len(),
    ensures
        spans_upto(s, m, lo, hi, y, color).len() == widths_upto(s, m, lo, hi),
    decreases m,
{
    if m > 0 {
        lemma_spans_len(s, (m - 1) as nat, lo, hi, y, color);
    }
}

proof fn lemma_crossings_parity(pts: Seq<Point>, y: int, k: nat)
    requires
        1 <= k <= pts.len(),
    ensures
        (crossings_upto(pts, y, k).len() % 2 == 1) == (((pts.last().y < y) != (pts[0].y < y)) != (
        (pts[0].y < y) != (pts[k - 1].y < y))),
    decreases k,
{
    let a = pts[k - 1];
    let b = pts[prev(pts.len() as int, k - 1)];
    assert(crosses(a, b, y) == ((a.y < y) != (b.y < y)));
    assert(crossings_upto(pts, y, k).len() == crossings_upto(pts, y, (k - 1) as nat).len() + if crosses(a, b, y) {
        1int
    } else {
        0int
    });
    if k > 1 {
        lemma_crossings_parity(pts, y, (k - 1) as nat);
    }
}

/// Every row meets the edges of a closed polygon an even number of times,
/// and filling the row writes exactly the summed widths of its clipped
/// spans.
pub proof fn lemma_scan_row(pts: Seq<Point>, color: Color, y: int)
    requires
        pts.len() >= 1,
    ensures
        crossings(pts, y).len() % 2 == 0,
        sorted_crossings(pts, y).len() == crossings(pts, y).len(),
        row_pixels(pts, color, y).len() == widths_upto(
            sorted_crossings(pts, y),
            sorted_crossings(pts, y).len() / 2,
            bounds(pts).0.x as int,
            bounds(pts).1.x as int,
        ),
{
    lemma_crossings_parity(pts, y, pts.len());
    let c = crossings(pts, y);
    lemma_int_leq_total();
    c.lemma_sort_by_ensures(int_leq());
    assert(c.to_multiset().len() == c.sort_by(int_leq()).to_multiset().len());
    let s = sorted_crossings(pts, y);
    lemma_spans_len(s, s.len() / 2, bounds(pts).0.x as int, bounds(pts).1.x as int, y, color);
}

/// The same pixel writes, all in color `c`.
pub open spec fn recolor(s: Seq<Pixel>, c: Color) -> Seq<Pixel> {
    s.map_values(|p: Pixel| Pixel { x: p.x, y: p.y, color: c })
}

proof fn lemma_recolor_concat(a: Seq<Pixel>, b: Seq<Pixel>, c: Color)
    ensures
        recolor(a + b, c) == recolor(a, c) + recolor(b, c),
{
    assert(recolor(a + b, c) =~= recolor(a, c) + recolor(b, c));
}

proof fn lemma_recolor_spans(s: Seq<int>, m: nat, lo: int, hi: int, y: int, c1: Color, c2: Color)
    requires
        2 * m <= s.len(),
    ensures
        spans_upto(s, m, lo, hi, y, c2) == recolor(spans_upto(s, m, lo, hi, y, c1), c2),
    decreases m,
{
    if m > 0 {
        lemma_recolor_spans(s, (m - 1) as nat, lo, hi, y, c1, c2);
        lemma_recolor_concat(
            spans_upto(s, (m - 1) as nat, lo, hi, y, c1),
            clipped_span(s, m - 1, lo, hi, y, c1),
            c2,
        );
        assert(clipped_span(s, m - 1, lo, hi, y, c2) =~= recolor(
            clipped_span(s, m - 1, lo, hi, y, c1),
            c2,
        ));
    }
}

proof fn lemma_recolor_rows(pts: Seq<Point>, count: nat, c1: Color, c2: Color)
    requires
        pts.len() >= 1,
    ensures
        rows_upto(pts, c2, count) == recolor(rows_upto(pts, c1, count), c2),
    decreases count,
{
    if count > 0 {
        lemma_recolor_rows(pts, (count - 1) as nat, c1, c2);
        let y = bounds(pts).0.y + count - 1;
        lemma_scan_row(pts, c1, y);
        let s = sorted_crossings(pts, y);
        lemma_recolor_spans(s, s.len() / 2, bounds(pts).0.x as int, bounds(pts).1.x as int, y, c1, c2);
        lemma_recolor_concat(rows_upto(pts, c1, (count - 1) as nat), row_pixels(pts, c1, y), c2);
    }
}

proof fn lemma_recolor_outline(pts: Seq<Point>, k: nat, c1: Color, c2: Color)
    requires
        k <= pts.len(),
    ensures
        outline_upto(pts, c2, k) == recolor(outline_upto(pts, c1, k), c2),
    decreases k,
{
    if k > 0 {
        lemma_recolor_outline(pts, (k - 1) as nat, c1, c2);
        let a = pts[prev(pts.len() as int, k - 1)];
        let b = pts[k - 1];
        assert(line_pixels(a, b, c2) =~= recolor(line_pixels(a, b, c1), c2));
        lemma_recolor_concat(outline_upto(pts, c1, (k - 1) as nat), line_pixels(a, b, c1), c2);
    }
}

/// Drawing a polygon in another color writes the same pixel positions in
/// the same order; so erasing covers exactly what painting wrote.
pub proof fn lemma_recolor_polygon(pts: Seq<Point>, c1: Color, c2: Color, fill: bool)
    ensures
        polygon_pixels(pts, c2, fill) == recolor(polygon_pixels(pts, c1, fill), c2),
{
    if pts.len() < 3 {
        assert(recolor(Seq::<Pixel>::empty(), c2) =~= Seq::<Pixel>::empty());
    } else if fill {
        let b = bounds(pts);
        lemma_recolor_rows(
            pts,
            if b.1.y > b.0.y {
                (b.1.y - b.0.y) as nat
            } else {
                0
            },
            c1,
            c2,
        );
    } else {
        lemma_recolor_outline(pts, pts.len(), c1, c2);
    }
}

/// Draws a closed polygon: its outline, or its interior by scan lines.
/// Fewer than three points draw nothing.
pub fn draw_polygon(layer: &mut ColorLayer, points: &[Point], color: Color, fill: bool)
    ensures
        final(layer).writes@ == old(layer).writes@ + polygon_pixels(points@, color, fill),
        points@.len() < 3 ==> final(layer).writes@ == old(layer).writes@,
{
    if !(points.len() > 2) {
        assert(old(layer).writes@ + Seq::<Pixel>::empty() =~= old(layer).writes@);
        return;
    }
    if fill {
        fill_polygon(layer, points, color);
    } else {
        let ghost start = old(layer).writes@;
        let n = points.len();
        let mut last: usize = n - 1;
        let mut i: usize = 0;
        while i < n
            invariant
                n == points@.len(),
                n >= 3,
                0 <= i <= n,
                last == prev(n as int, i as int) || i == n,
                layer.writes@ == start + outline_upto(points@, color, i as nat),
            decreases n - i,
        {
            draw_line(layer, &points[last], &points[i], color);
            proof {
                assert(start + outline_upto(points@, color, i as nat) + line_pixels(
                    points@[last as int],
                    points@[i as int],
                    color,
                ) =~= start + outline_upto(points@, color, (i + 1) as nat));
            }
            last = i;
            i = i + 1;
        }
    }
}

/// A closed polygon widget: its points, its color, and whether it is filled.
pub struct Polygon {
    points: Vec<Point>,
    color: Color,
    filled: bool,
}

impl Polygon {
    pub closed spec fn spec_points(&self) -> Seq<Point> {
        self.points@
    }

    pub closed spec fn spec_color(&self) -> Color {
        self.color
    }

    pub closed spec fn spec_filled(&self) -> bool {
        self.filled
    }

    pub fn new(points: Vec<Point>, color: Color, filled: bool) -> (p: Polygon)
        ensures
            p.spec_points() == points@,
            p.spec_color() == color,
            p.spec_filled() == filled,
    {
        Polygon { points, color, filled }
    }

    /// Draws the polygon in its color.
    pub fn paint(&self, layer: &mut ColorLayer)
        ensures
            final(layer).writes@ == old(layer).writes@ + polygon_pixels(
                self.spec_points(),
                self.spec_color(),
                self.spec_filled(),
            ),
    {
        draw_polygon(layer, self.points.as_slice(), self.color, self.filled);
    }

    /// Draws the polygon's footprint in the erase color.
    pub fn clear(&self, layer: &mut ColorLayer)
        ensures
            final(layer).writes@ == old(layer).writes@ + polygon_pixels(
                self.spec_points(),
                Color::spec_transparent(),
                self.spec_filled(),
            ),
    {
        draw_polygon(layer, self.points.as_slice(), Color::transparent(), self.filled);
    }

    /// Hit testing is not offered by polygons: no point is inside.
    pub fn is_in_bounding_box(&self, _p: &Point) -> (r: bool)
        ensures
            !r,
    {
        false
    }

    /// Whether both polygons have the same points in the same order, the
    /// same color and the same fill flag.
    pub fn same_as(&self, other: &Polygon) -> (r: bool)
        ensures
            r == (self.spec_points() == other.spec_points() && self.spec_color()
                == other.spec_color() && self.spec_filled() == other.spec_filled()),
    {
        if self.color != other.color || self.filled != other.filled {
            return false;
        }
        let n = self.points.len();
        if n != other.points.len() {
            return false;
        }
        let mut i: usize = 0;
        while i < n
            invariant
                n == self.points@.len(),
                n == other.points@.len(),
                0 <= i <= n,
                forall|k: int| 0 <= k < i ==> self.points@[k] == other.points@[k],
            decreases n - i,
        {
            if self.points[i] != other.points[i] {
                return false;
            }
            i = i + 1;
        }
        assert(self.points@ =~= other.points@);
        true
    }
}

} // verus!
