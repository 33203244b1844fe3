//! The characters of a border around a view.
use vstd::prelude::*;
use crate::geom::Margin;

verus! {

/// The eight characters a border is drawn with; a space draws nothing.
#[derive(Copy, Clone, Debug, PartialEq, Eq, Structural)]
pub struct Border {
    pub left_top: char,
    pub top: char,
    pub right_top: char,
    pub right: char,
    pub right_bottom: char,
    pub bottom: char,
    pub left_bottom: char,
    pub left: char,
}

/// A character that draws something.
pub open spec fn drawn(c: char) -> bool {
    c != ' '
}

impl Border {
    /// No top edge: the top corners continue the side edges.
    pub fn without_top(self) -> (b: Border)
        ensures
            b == (Border { left_top: self.left, right_top: self.right, top: ' ', ..self }),
    {
        Border { left_top: self.left, right_top: self.right, top: ' ', ..self }
    }

    /// No bottom edge: the bottom corners continue the side edges.
    pub fn without_bottom(self) -> (b: Border)
        ensures
            b == (Border { left_bottom: self.left, right_bottom: self.right, bottom: ' ', ..self }),
    {
        Border { left_bottom: self.left, right_bottom: self.right, bottom: ' ', ..self }
    }

    /// No left edge: the left corners continue the top and bottom edges.
    pub fn without_left(self) -> (b: Border)
        ensures
            b == (Border { left_top: self.top, left: ' ', left_bottom: self.bottom, ..self }),
    {
        Border { left_top: self.top, left: ' ', left_bottom: self.bottom, ..self }
    }

    /// No right edge: the right corners continue the top and bottom edges.
    pub fn without_right(self) -> (b: Border)
        ensures
            b == (Border { right_top: self.top, right: ' ', right_bottom: self.bottom, ..self }),
    {
        Border { right_top: self.top, right: ' ', right_bottom: self.bottom, ..self }
    }

    /// No corners: they continue the top and bottom edges.
    pub fn without_corners(self) -> (b: Border)
        ensures
            b == (Border {
                left_top: self.top,
                right_top: self.top,
                left_bottom: self.bottom,
                right_bottom: self.bottom,
                ..self
            }),
    {
        Border {
            left_top: self.top,
            right_top: self.top,
            left_bottom: self.bottom,
            right_bottom: self.bottom,
            ..self
        }
    }

    pub open spec fn spec_has_left(self) -> bool {
        drawn(self.left) || (drawn(self.left_top) && drawn(self.left_bottom))
    }

    pub open spec fn spec_has_top(self) -> bool {
        drawn(self.top) || (drawn(self.left_top) && drawn(self.right_top))
    }

    pub open spec fn spec_has_right(self) -> bool {
        drawn(self.right) || (drawn(self.right_top) && drawn(self.right_bottom))
    }

    pub open spec fn spec_has_bottom(self) -> bool {
        drawn(self.bottom) || (drawn(self.left_bottom) && drawn(self.right_bottom))
    }

    /// Does the left side take a column?
    pub fn has_left(&self) -> (r: bool)
        ensures
            r == self.spec_has_left(),
    {
        self.left != ' ' || (self.left_top != ' ' && self.left_bottom != ' ')
    }

    /// Does the top side take a row?
    pub fn has_top(&self) -> (r: bool)
        ensures
            r == self.spec_has_top(),
    {
        self.top != ' ' || (self.left_top != ' ' && self.right_top != ' ')
    }

    /// Does the right side take a column?
    pub fn has_right(&self) -> (r: bool)
        ensures
            r == self.spec_has_right(),
    {
        self.right != ' ' || (self.right_top != ' ' && self.right_bottom != ' ')
    }

    /// Does the bottom side take a row?
    pub fn has_bottom(&self) -> (r: bool)
        ensures
            r == self.spec_has_bottom(),
    {
        self.bottom != ' ' || (self.left_bottom != ' ' && self.right_bottom != ' ')
    }

    /// The space the border takes on each side: one cell where it draws, none elsewhere.
    pub fn as_margin(&self) -> (m: Margin)
        ensures
            m == (Margin {
                left: if self.spec_has_left() {
                    1
                } else {
                    0
                },
                top: if self.spec_has_top() {
                    1
                } else {
                    0
                },
                right: if self.spec_has_right() {
                    1
                } else {
                    0
                },
                bottom: if self.spec_has_bottom() {
                    1
                } else {
                    0
                },
            }),
    {
        let left: i32 = if self.has_left() {
            1
        } else {
            0
        };
        let top: i32 = if self.has_top() {
            1
        } else {
            0
        };
        let right: i32 = if self.has_right() {
            1
        } else {
            0
        };
        let bottom: i32 = if self.has_bottom() {
            1
        } else {
            0
        };
        Margin::new(left, top, right, bottom)
    }

    /// A border that draws nothing.
    pub fn empty() -> (b: Border)
        ensures
            b == (Border {
                left_top: ' ',
                top: ' ',
                right_top: ' ',
                right: ' ',
                right_bottom: ' ',
                bottom: ' ',
                left_bottom: ' ',
                left: ' ',
            }),
    {
        Border {
            left_top: ' ',
            top: ' ',
            right_top: ' ',
            right: ' ',
            right_bottom: ' ',
            bottom: ' ',
            left_bottom: ' ',
            left: ' ',
        }
    }

    /// Thin lines with square corners.
    pub fn thin() -> (b: Border)
        ensures
            b == (Border {
                left_top: '\u{250C}',
                top: '\u{2500}',
                right_top: '\u{2510}',
                right: '\u{2502}',
                right_bottom: '\u{2518}',
                bottom: '\u{2500}',
                left_bottom: '\u{2514}',
                left: '\u{2502}',
            }),
    {
        Border {
            left_top: '\u{250C}',
            top: '\u{2500}',
            right_top: '\u{2510}',
            right: '\u{2502}',
            right_bottom: '\u{2518}',
            bottom: '\u{2500}',
            left_bottom: '\u{2514}',
            left: '\u{2502}',
        }
    }

    /// Thin lines drawn at the outer edge of the cells.
    pub fn thin_wide() -> (b: Border)
        ensures
            b == (Border {
                left_top: '\u{2581}',
                top: '\u{2581}',
                right_top: '\u{2581}',
                right: '\u{2595}',
                right_bottom: '\u{2594}',
                bottom: '\u{2594}',
                left_bottom: '\u{2594}',
                left: '\u{258F}',
            }),
    {
        Border {
            left_top: '\u{2581}',
            top: '\u{2581}',
            right_top: '\u{2581}',
            right: '\u{2595}',
            right_bottom: '\u{2594}',
            bottom: '\u{2594}',
            left_bottom: '\u{2594}',
            left: '\u{258F}',
        }
    }

    /// Thin lines with rounded corners.
    pub fn rounded() -> (b: Border)
        ensures
            b == (Border {
                left_top: '\u{256D}',
                top: '\u{2500}',
                right_top: '\u{256E}',
                right: '\u{2502}',
                right_bottom: '\u{256F}',
                bottom: '\u{2500}',
                left_bottom: '\u{2570}',
                left: '\u{2502}',
            }),
    {
        Border {
            left_top: '\u{256D}',
            top: '\u{2500}',
            right_top: '\u{256E}',
            right: '\u{2502}',
            right_bottom: '\u{256F}',
            bottom: '\u{2500}',
            left_bottom: '\u{2570}',
            left: '\u{2502}',
        }
    }

    /// Double lines.
    pub fn double() -> (b: Border)
        ensures
            b == (Border {
                left_top: '\u{2554}',
                top: '\u{2550}',
                right_top: '\u{2557}',
                right: '\u{2551}',
                right_bottom: '\u{255D}',
                bottom: '\u{2550}',
                left_bottom: '\u{255A}',
                left: '\u{2551}',
            }),
    {
        Border {
            left_top: '\u{2554}',
            top: '\u{2550}',
            right_top: '\u{2557}',
            right: '\u{2551}',
            right_bottom: '\u{255D}',
            bottom: '\u{2550}',
            left_bottom: '\u{255A}',
            left: '\u{2551}',
        }
    }

    /// Thick lines.
    pub fn thick() -> (b: Border)
        ensures
            b == (Border {
                left_top: '\u{250F}',
                top: '\u{2501}',
                right_top: '\u{2513}',
                right: '\u{2503}',
                right_bottom: '\u{251B}',
                bottom: '\u{2501}',
                left_bottom: '\u{2517}',
                left: '\u{2503}',
            }),
    {
        Border {
            left_top: '\u{250F}',
            top: '\u{2501}',
            right_top: '\u{2513}',
            right: '\u{2503}',
            right_bottom: '\u{251B}',
            bottom: '\u{2501}',
            left_bottom: '\u{2517}',
            left: '\u{2503}',
        }
    }

    /// Half blocks drawn inside the cells.
    pub fn thick_tall() -> (b: Border)
        ensures
            b == (Border {
                left_top: '\u{259B}',
                top: '\u{2580}',
                right_top: '\u{259C}',
                right: '\u{2590}',
                right_bottom: '\u{259F}',
                bottom: '\u{2584}',
                left_bottom: '\u{2599}',
                left: '\u{258C}',
            }),
    {
        Border {
            left_top: '\u{259B}',
            top: '\u{2580}',
            right_top: '\u{259C}',
            right: '\u{2590}',
            right_bottom: '\u{259F}',
            bottom: '\u{2584}',
            left_bottom: '\u{2599}',
            left: '\u{258C}',
        }
    }

    /// Half blocks drawn outside the cells.
    pub fn thick_wide() -> (b: Border)
        ensures
            b == (Border {
                left_top: '\u{2597}',
                top: '\u{2584}',
                right_top: '\u{2596}',
                right: '\u{258C}',
                right_bottom: '\u{2598}',
                bottom: '\u{2580}',
                left_bottom: '\u{259D}',
                left: '\u{2590}',
            }),
    {
        Border {
            left_top: '\u{2597}',
            top: '\u{2584}',
            right_top: '\u{2596}',
            right: '\u{258C}',
            right_bottom: '\u{2598}',
            bottom: '\u{2580}',
            left_bottom: '\u{259D}',
            left: '\u{2590}',
        }
    }
}

impl Default for Border {
    fn default() -> (b: Border)
        ensures
            b == (Border {
                left_top: '\u{250F}',
                top: '\u{2501}',
                right_top: '\u{2513}',
                right: '\u{2503}',
                right_bottom: '\u{251B}',
                bottom: '\u{2501}',
                left_bottom: '\u{2517}',
                left: '\u{2503}',
            }),
    {
        Border::thick()
    }
}

} // verus!
