use vstd::prelude::*;
use crate::geometry::Point;
use crate::layer::{TextLayer, TextOp};

verus! {

/// A text widget: a string placed with its first character at a text cell.
pub struct TextElement {
    text: String,
    x_pos: usize,
    y_pos: usize,
}

impl TextElement {
    pub closed spec fn spec_text(&self) -> Seq<char> {
        self.text@
    }

    pub closed spec fn spec_x(&self) -> usize {
        self.x_pos
    }

    pub closed spec fn spec_y(&self) -> usize {
        self.y_pos
    }

    /// The text write that shows this element, or with `erase`, hides it.
    pub open spec fn op(&self, erase: bool) -> TextOp {
        (self.spec_x(), self.spec_y(), self.spec_text(), erase)
    }

    pub fn new(x_pos: usize, y_pos: usize, text: String) -> (t: TextElement)
        ensures
            t.spec_text() == text@,
            t.spec_x() == x_pos,
            t.spec_y() == y_pos,
    {
        TextElement { text, x_pos, y_pos }
    }

    /// Prints the text at its cell.
    pub fn paint(&self, layer: &mut TextLayer)
        ensures
            final(layer).ops() == old(layer).ops().push(self.op(false)),
    {
        layer.print_str_at(self.x_pos, self.y_pos, &self.text);
    }

    /// Erases the cells the text covers.
    pub fn clear(&self, layer: &mut TextLayer)
        ensures
            final(layer).ops() == old(layer).ops().push(self.op(true)),
    {
        layer.clear_str_at(self.x_pos, self.y_pos, &self.text);
    }

    /// Hit testing is not offered by text: no point is inside.
    pub fn is_in_bounding_box(&self, _p: &Point) -> (r: bool)
        ensures
            !r,
    {
        false
    }

    /// Whether both elements hold the same text at the same cell.
    pub fn same_as(&self, other: &TextElement) -> (r: bool)
        ensures
            r == (self.spec_text() == other.spec_text() && self.spec_x() == other.spec_x()
                && self.spec_y() == other.spec_y()),
    {
        self.x_pos == other.x_pos && self.y_pos == other.y_pos && self.text == other.text
    }
}

} // verus!
