use vstd::prelude::*;
use crate::geometry::Color;

verus! {

/// One write of the pixel primitive.
#[derive(Clone, Copy, Debug, PartialEq, Eq, Structural)]
pub struct Pixel {
    pub x: i32,
    pub y: i32,
    pub color: Color,
}

/// The graphics layer, as the ordered record of the pixel writes made to
/// it; the driver replays them on the framebuffer.
pub struct ColorLayer {
    pub writes: Vec<Pixel>,
}

impl ColorLayer {
    pub fn new() -> (l: ColorLayer)
        ensures
            l.writes@.len() == 0,
    {
        ColorLayer { writes: Vec::new() }
    }

    /// Writes one pixel.
    pub fn set_pixel(&mut self, x: i32, y: i32, color: Color)
        ensures
            final(self).writes@ == old(self).writes@.push(Pixel { x, y, color }),
    {
        self.writes.push(Pixel { x, y, color });
    }
}

/// One write of the text-cell primitive: print `text` at cell `(col, row)`,
/// or erase it there.
pub struct TextWrite {
    pub col: usize,
    pub row: usize,
    pub text: String,
    pub erase: bool,
}

/// A text-layer write as plain values: cell column, cell row, characters,
/// and whether it erases.
pub type TextOp = (usize, usize, Seq<char>, bool);

pub open spec fn text_op(w: TextWrite) -> TextOp {
    (w.col, w.row, w.text@, w.erase)
}

/// The text layer, as the ordered record of the text-cell writes made to it.
pub struct TextLayer {
    pub writes: Vec<TextWrite>,
}

impl TextLayer {
    pub open spec fn ops(&self) -> Seq<TextOp> {
        self.writes@.map_values(|w: TextWrite| text_op(w))
    }

    pub fn new() -> (l: TextLayer)
        ensures
            l.ops().len() == 0,
    {
        TextLayer { writes: Vec::new() }
    }

    /// Prints `text` starting at cell `(col, row)`.
    pub fn print_str_at(&mut self, col: usize, row: usize, text: &String)
        ensures
            final(self).ops() == old(self).ops().push((col, row, text@, false)),
    {
        self.writes.push(TextWrite { col, row, text: text.clone(), erase: false });
        assert(self.ops() =~= old(self).ops().push((col, row, text@, false)));
    }

    /// Erases the cells that `text` covers starting at cell `(col, row)`.
    pub fn clear_str_at(&mut self, col: usize, row: usize, text: &String)
        ensures
            final(self).ops() == old(self).ops().push((col, row, text@, true)),
    {
        self.writes.push(TextWrite { col, row, text: text.clone(), erase: true });
        assert(self.ops() =~= old(self).ops().push((col, row, text@, true)));
    }
}

} // verus!
