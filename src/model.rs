use vstd::prelude::*;
use crate::geometry::{Point, Color};
use crate::polygon::Polygon;
use crate::widget::Widget;

verus! {

/// Up to two touch contacts; `None` marks a slot that is not pressed.
#[derive(Clone, Copy, Debug, PartialEq, Eq, Structural)]
pub struct CursorModel {
    pub first_contact: Option<Point>,
    pub second_contact: Option<Point>,
}

/// The application state: the cursor's center, its radius and the contacts.
#[derive(Clone, Copy, Debug, PartialEq, Eq, Structural)]
pub struct Model {
    pub p: Point,
    pub r: i32,
    pub cursor: CursorModel,
}

/// Largest coordinate magnitude of a cursor center that `view` can draw.
pub const COORD_LIMIT: i32 = 0x4000_0000;

/// Largest cursor radius that `view` can draw.
pub const RADIUS_LIMIT: i32 = 0x10_0000;

/// The contacts of one tick's samples: the first two, in order; further
/// samples are ignored.
pub open spec fn contacts_of(samples: Seq<Point>) -> CursorModel {
    CursorModel {
        first_contact: if samples.len() >= 1 {
            Some(samples[0])
        } else {
            None
        },
        second_contact: if samples.len() >= 2 {
            Some(samples[1])
        } else {
            None
        },
    }
}

/// The next model: the contacts are this tick's samples, the cursor moves
/// to the first contact if there is one, and the radius is kept.
pub open spec fn next_model(m: Model, samples: Seq<Point>) -> Model {
    Model {
        p: if samples.len() >= 1 {
            samples[0]
        } else {
            m.p
        },
        r: m.r,
        cursor: contacts_of(samples),
    }
}

/// Computes the next model from the previous one and this tick's touch samples.
pub fn update(model: Model, touches: &[Point]) -> (next: Model)
    ensures
        next == next_model(model, touches@),
{
    let first = if touches.len() >= 1 {
        Some(touches[0])
    } else {
        None
    };
    let second = if touches.len() >= 2 {
        Some(touches[1])
    } else {
        None
    };
    let p = match first {
        Some(t) => t,
        None => model.p,
    };
    Model { p, r: model.r, cursor: CursorModel { first_contact: first, second_contact: second } }
}

/// With no samples, any contacts are released and the cursor stays put.
pub proof fn lemma_release_all(m: Model)
    ensures
        next_model(m, Seq::empty()).cursor == (CursorModel {
            first_contact: None,
            second_contact: None,
        }),
        next_model(m, Seq::empty()).p == m.p,
        next_model(next_model(m, Seq::empty()), Seq::empty()) == next_model(m, Seq::empty()),
{
}

pub open spec fn drawable(m: Model) -> bool {
    &&& -COORD_LIMIT <= m.p.x <= COORD_LIMIT
    &&& -COORD_LIMIT <= m.p.y <= COORD_LIMIT
    &&& 0 <= m.r <= RADIUS_LIMIT
}

/// The diagonal offset of the cursor's octagon: seven tenths of the radius.
pub open spec fn diagonal(r: int) -> int {
    r * 7 / 10
}

/// The octagon that stands for the cursor circle, clockwise from the right.
pub open spec fn cursor_points(m: Model) -> Seq<Point> {
    let x = m.p.x as int;
    let y = m.p.y as int;
    let r = m.r as int;
    let d = diagonal(r);
    seq![
        Point { x: (x + r) as i32, y: y as i32 },
        Point { x: (x + d) as i32, y: (y + d) as i32 },
        Point { x: x as i32, y: (y + r) as i32 },
        Point { x: (x - d) as i32, y: (y + d) as i32 },
        Point { x: (x - r) as i32, y: y as i32 },
        Point { x: (x - d) as i32, y: (y - d) as i32 },
        Point { x: x as i32, y: (y - r) as i32 },
        Point { x: (x + d) as i32, y: (y - d) as i32 },
    ]
}

/// The cursor's color: opaque white.
pub open spec fn cursor_color() -> Color {
    Color { r: 255, g: 255, b: 255, a: 255 }
}

/// The widgets of a frame: one filled white octagon around the cursor.
pub fn view(model: &Model) -> (widgets: Vec<Widget>)
    requires
        drawable(*model),
    ensures
        widgets@.len() == 1,
        widgets@[0] matches Widget::Polygon(c) && c.spec_points() == cursor_points(*model)
            && c.spec_color() == cursor_color() && c.spec_filled(),
{
    let x = model.p.x;
    let y = model.p.y;
    let r = model.r;
    let d: i32 = r * 7 / 10;
    let right = x + r;
    let left = x - r;
    let below = y + r;
    let above = y - r;
    let x_plus = x + d;
    let x_minus = x - d;
    let y_plus = y + d;
    let y_minus = y - d;
    let points = vec![
        Point { x: right, y },
        Point { x: x_plus, y: y_plus },
        Point { x, y: below },
        Point { x: x_minus, y: y_plus },
        Point { x: left, y },
        Point { x: x_minus, y: y_minus },
        Point { x, y: above },
        Point { x: x_plus, y: y_minus },
    ];
    proof {
        assert(points@ =~= cursor_points(*model));
    }
    let cursor = Polygon::new(points, Color::rgb(255, 255, 255), true);
    let mut widgets: Vec<Widget> = Vec::new();
    widgets.push(Widget::Polygon(cursor));
    widgets
}

} // verus!
