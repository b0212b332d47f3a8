//! Retained-mode rendering core for a touch screen: geometry, line and
//! polygon rasterization into a pixel layer, widgets with diffed redraw,
//! and the cursor model updated from touch samples.

pub mod geometry;
pub mod layer;
pub mod line;
pub mod polygon;
pub mod text_element;
pub mod widget;
pub mod model;

pub use geometry::{Point, Color, get_bounds, SCREEN_WIDTH, SCREEN_HEIGHT};
pub use layer::{Pixel, ColorLayer, TextWrite, TextLayer};
pub use line::draw_line;
pub use polygon::{draw_polygon, Polygon};
pub use text_element::TextElement;
pub use widget::{Widget, render};
pub use model::{CursorModel, Model, update, view, COORD_LIMIT, RADIUS_LIMIT};
