use vstd::prelude::*;
use crate::geometry::{Point, Color};
use crate::layer::{Pixel, ColorLayer, TextLayer, TextOp};
use crate::polygon::{Polygon, polygon_pixels, recolor, lemma_recolor_polygon};
use crate::text_element::TextElement;

verus! {

/// A widget of one of the renderable kinds.
pub enum Widget {
    Polygon(Polygon),
    Text(TextElement),
}

impl Widget {
    /// The pixels that painting the widget writes.
    pub open spec fn paint_ui(&self) -> Seq<Pixel> {
        match self {
            Widget::Polygon(p) => polygon_pixels(p.spec_points(), p.spec_color(), p.spec_filled()),
            Widget::Text(_) => Seq::empty(),
        }
    }

    /// The pixels that clearing the widget writes.
    pub open spec fn clear_ui(&self) -> Seq<Pixel> {
        match self {
            Widget::Polygon(p) => polygon_pixels(
                p.spec_points(),
                Color::spec_transparent(),
                p.spec_filled(),
            ),
            Widget::Text(_) => Seq::empty(),
        }
    }

    /// The text writes that painting the widget makes.
    pub open spec fn paint_text(&self) -> Seq<TextOp> {
        match self {
            Widget::Polygon(_) => Seq::empty(),
            Widget::Text(t) => seq![t.op(false)],
        }
    }

    /// The text writes that clearing the widget makes.
    pub open spec fn clear_text(&self) -> Seq<TextOp> {
        match self {
            Widget::Polygon(_) => Seq::empty(),
            Widget::Text(t) => seq![t.op(true)],
        }
    }

    /// Whether both widgets are of one kind with equal fields.
    pub open spec fn same(&self, other: &Widget) -> bool {
        match (self, other) {
            (Widget::Polygon(a), Widget::Polygon(b)) => a.spec_points() == b.spec_points()
                && a.spec_color() == b.spec_color() && a.spec_filled() == b.spec_filled(),
            (Widget::Text(a), Widget::Text(b)) => a.spec_text() == b.spec_text() && a.spec_x()
                == b.spec_x() && a.spec_y() == b.spec_y(),
            _ => false,
        }
    }

    /// Draws the widget in its current state.
    pub fn paint(&self, ui: &mut ColorLayer, text: &mut TextLayer)
        ensures
            final(ui).writes@ == old(ui).writes@ + self.paint_ui(),
            final(text).ops() == old(text).ops() + self.paint_text(),
    {
        match self {
            Widget::Polygon(p) => {
                p.paint(ui);
                assert(text.ops() =~= old(text).ops() + self.paint_text());
            },
            Widget::Text(t) => {
                t.paint(text);
                assert(text.ops() =~= old(text).ops() + self.paint_text());
                assert(ui.writes@ =~= old(ui).writes@ + self.paint_ui());
            },
        }
    }

    /// Erases the widget's footprint in its current state.
    pub fn clear(&self, ui: &mut ColorLayer, text: &mut TextLayer)
        ensures
            final(ui).writes@ == old(ui).writes@ + self.clear_ui(),
            final(text).ops() == old(text).ops() + self.clear_text(),
    {
        match self {
            Widget::Polygon(p) => {
                p.clear(ui);
                assert(text.ops() =~= old(text).ops() + self.clear_text());
            },
            Widget::Text(t) => {
                t.clear(text);
                assert(text.ops() =~= old(text).ops() + self.clear_text());
                assert(ui.writes@ =~= old(ui).writes@ + self.clear_ui());
            },
        }
    }

    /// Whether a screen point lies inside the widget.
    pub fn is_in_bounding_box(&self, p: &Point) -> (r: bool)
        ensures
            !r,
    {
        match self {
            Widget::Polygon(w) => w.is_in_bounding_box(p),
            Widget::Text(w) => w.is_in_bounding_box(p),
        }
    }

    /// Whether both widgets are of one kind with equal fields.
    pub fn same_as(&self, other: &Widget) -> (r: bool)
        ensures
            r == self.same(other),
    {
        match (self, other) {
            (Widget::Polygon(a), Widget::Polygon(b)) => a.same_as(b),
            (Widget::Text(a), Widget::Text(b)) => a.same_as(b),
            _ => false,
        }
    }

    /// Redraws the widget against the one it replaces: with none, paints it;
    /// with an equal one, writes nothing; otherwise clears the previous one
    /// and paints this one.
    pub fn draw(&self, previous: Option<&Widget>, ui: &mut ColorLayer, text: &mut TextLayer)
        ensures
            final(ui).writes@ == old(ui).writes@ + draw_ui(deref(previous), *self),
            final(text).ops() == old(text).ops() + draw_text(deref(previous), *self),
            previous.is_some() && previous.unwrap().same(self) ==> final(ui).writes@ == old(
                ui,
            ).writes@ && final(text).ops() == old(text).ops(),
    {
        match previous {
            None => {
                self.paint(ui, text);
            },
            Some(o) => {
                if !o.same_as(self) {
                    o.clear(ui, text);
                    self.paint(ui, text);
                    assert(ui.writes@ =~= old(ui).writes@ + draw_ui(deref(previous), *self));
                    assert(text.ops() =~= old(text).ops() + draw_text(deref(previous), *self));
                } else {
                    assert(ui.writes@ =~= old(ui).writes@ + draw_ui(deref(previous), *self));
                    assert(text.ops() =~= old(text).ops() + draw_text(deref(previous), *self));
                }
            },
        }
    }
}

pub open spec fn deref(o: Option<&Widget>) -> Option<Widget> {
    match o {
        Some(w) => Some(*w),
        None => None,
    }
}

/// The pixels that drawing `w` over `previous` writes.
pub open spec fn draw_ui(previous: Option<Widget>, w: Widget) -> Seq<Pixel> {
    match previous {
        None => w.paint_ui(),
        Some(o) => if o.same(&w) {
            Seq::empty()
        } else {
            o.clear_ui() + w.paint_ui()
        },
    }
}

/// The text writes that drawing `w` over `previous` makes.
pub open spec fn draw_text(previous: Option<Widget>, w: Widget) -> Seq<TextOp> {
    match previous {
        None => w.paint_text(),
        Some(o) => if o.same(&w) {
            Seq::empty()
        } else {
            o.clear_text() + w.paint_text()
        },
    }
}

/// Drawing a widget over one equal to it writes nothing to either layer.
pub proof fn lemma_redraw_unchanged(previous: Widget, w: Widget)
    requires
        previous.same(&w),
    ensures
        draw_ui(Some(previous), w) == Seq::<Pixel>::empty(),
        draw_text(Some(previous), w) == Seq::<TextOp>::empty(),
{
}

/// A widget is the same as itself, so drawing it over itself writes nothing.
pub proof fn lemma_same_reflexive(w: Widget)
    ensures
        w.same(&w),
        draw_ui(Some(w), w) == Seq::<Pixel>::empty(),
        draw_text(Some(w), w) == Seq::<TextOp>::empty(),
{
}

/// Drawing `previous` on an empty baseline and then `w` over it, where the
/// two differ, writes the footprint of `previous`, then its erasure, then
/// the footprint of `w`, and nothing else; the erasure writes transparent
/// pixels at exactly the positions that painting `previous` wrote, and
/// erases exactly the text that painting it printed.
pub proof fn lemma_redraw_changed(previous: Widget, w: Widget)
    requires
        !previous.same(&w),
    ensures
        previous.clear_ui() == recolor(previous.paint_ui(), Color::spec_transparent()),
        previous.clear_text().len() == previous.paint_text().len(),
        forall|i: int|
            0 <= i < previous.paint_text().len() ==> #[trigger] previous.clear_text()[i] == (
            previous.paint_text()[i].0,
            previous.paint_text()[i].1,
            previous.paint_text()[i].2,
            true,
        ),
        draw_ui(None, previous) + draw_ui(Some(previous), w) == previous.paint_ui()
            + previous.clear_ui() + w.paint_ui(),
        draw_text(None, previous) + draw_text(Some(previous), w) == previous.paint_text()
            + previous.clear_text() + w.paint_text(),
{
    match previous {
        Widget::Polygon(p) => {
            lemma_recolor_polygon(
                p.spec_points(),
                p.spec_color(),
                Color::spec_transparent(),
                p.spec_filled(),
            );
        },
        Widget::Text(_) => {
            assert(recolor(Seq::<Pixel>::empty(), Color::spec_transparent()) =~= Seq::<Pixel>::empty());
        },
    }
    assert(previous.paint_ui() + (previous.clear_ui() + w.paint_ui()) =~= previous.paint_ui()
        + previous.clear_ui() + w.paint_ui());
    assert(previous.paint_text() + (previous.clear_text() + w.paint_text()) =~= previous.paint_text()
        + previous.clear_text() + w.paint_text());
}

/// The widget paired with position `k` of the previous frame, if any.
pub open spec fn previous_at(previous: Seq<Widget>, k: int) -> Option<Widget> {
    if 0 <= k < previous.len() {
        Some(previous[k])
    } else {
        None
    }
}

/// The pixels that rendering the first `k` widgets of a frame writes.
pub open spec fn render_ui(current: Seq<Widget>, previous: Seq<Widget>, k: nat) -> Seq<Pixel>
    decreases k,
{
    if k == 0 {
        Seq::empty()
    } else {
        render_ui(current, previous, (k - 1) as nat) + draw_ui(
            previous_at(previous, k - 1),
            current[k - 1],
        )
    }
}

/// The text writes that rendering the first `k` widgets of a frame makes.
pub open spec fn render_text(current: Seq<Widget>, previous: Seq<Widget>, k: nat) -> Seq<TextOp>
    decreases k,
{
    if k == 0 {
        Seq::empty()
    } else {
        render_text(current, previous, (k - 1) as nat) + draw_text(
            previous_at(previous, k - 1),
            current[k - 1],
        )
    }
}

/// Draws each widget of the frame over the widget at the same position of
/// the previous frame.
pub fn render(
    current: &Vec<Widget>,
    previous: &Vec<Widget>,
    ui: &mut ColorLayer,
    text: &mut TextLayer,
)
    ensures
        final(ui).writes@ == old(ui).writes@ + render_ui(current@, previous@, current@.len()),
        final(text).ops() == old(text).ops() + render_text(current@, previous@, current@.len()),
{
    let n = current.len();
    let mut k: usize = 0;
    while k < n
        invariant
            n == current@.len(),
            0 <= k <= n,
            ui.writes@ == old(ui).writes@ + render_ui(current@, previous@, k as nat),
            text.ops() == old(text).ops() + render_text(current@, previous@, k as nat),
        decreases n - k,
    {
        let prev: Option<&Widget> = if k < previous.len() {
            Some(&previous[k])
        } else {
            None
        };
        current[k].draw(prev, ui, text);
        proof {
            assert(deref(prev) == previous_at(previous@, k as int));
            assert(old(ui).writes@ + render_ui(current@, previous@, k as nat) + draw_ui(
                deref(prev),
                current@[k as int],
            ) =~= old(ui).writes@ + render_ui(current@, previous@, (k + 1) as nat));
            assert(old(text).ops() + render_text(current@, previous@, k as nat) + draw_text(
                deref(prev),
                current@[k as int],
            ) =~= old(text).ops() + render_text(current@, previous@, (k + 1) as nat));
        }
        k = k + 1;
    }
}

} // verus!
