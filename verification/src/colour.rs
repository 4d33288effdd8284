//! Looking up the colour of a cell.

use vstd::prelude::*;
use crate::state::Cell;

verus! {

/// A colour of the terminal.
#[derive(Clone, Copy, Debug, PartialEq, Eq, Structural)]
pub enum Colour {
    /// The terminal's own colour.
    Reset,
    DarkRed,
    Red,
    White,
    DarkGrey,
    Blue,
    Rgb { r: u8, g: u8, b: u8 },
}

/// Colour lookup to be used when rendering maze nodes.
pub struct Lut {
    /// Age gradient: the colour of a visited node for each age.
    pub gradient: Vec<Colour>,
    /// Colour of unvisited nodes.
    pub unvisited: Colour,
    /// Colour of special nodes.
    pub special: Colour,
}

impl Lut {
    /// The gradient has a colour for each of the 256 ages.
    pub open spec fn wf(&self) -> bool {
        self.gradient@.len() == 256
    }

    /// The colour for an age: that of unvisited nodes where there is none.
    pub open spec fn spec_sample(&self, age: Option<u8>) -> Colour {
        match age {
            Some(a) => self.gradient@[a as int],
            None => self.unvisited,
        }
    }

    /// The colour of a cell: none for a blank; the special colour for a
    /// special cell; else the colour for its age.
    pub open spec fn spec_paint(&self, cell: Cell) -> Option<Colour> {
        match cell {
            Cell::Painted { age, special } => Some(
                if special {
                    self.special
                } else {
                    self.spec_sample(age)
                },
            ),
            Cell::Blank => None,
        }
    }

    /// The gradient of the lookup that uses only standard colours: dark red
    /// for ages below four, red for ages below eight, white above.
    pub open spec fn ansi_gradient() -> Seq<Colour> {
        Seq::new(
            256,
            |i: int|
                if i < 4 {
                    Colour::DarkRed
                } else if i < 8 {
                    Colour::Red
                } else {
                    Colour::White
                },
        )
    }

    /// Gets the colour of a node by sampling the gradient if the node is visited.
    pub fn sample(&self, age: Option<u8>) -> (r: Colour)
        requires
            self.wf(),
        ensures
            r == self.spec_sample(age),
    {
        match age {
            Some(a) => self.gradient[a as usize],
            None => self.unvisited,
        }
    }

    /// Gets the colour of a cell, if it has one.
    pub fn paint(&self, cell: Cell) -> (r: Option<Colour>)
        requires
            self.wf(),
        ensures
            r == self.spec_paint(cell),
    {
        match cell {
            Cell::Painted { age, special } => Some(
                if special {
                    self.special
                } else {
                    self.sample(age)
                },
            ),
            Cell::Blank => None,
        }
    }

    /// Derives a lookup using only standard colours (not RGB): dark grey for
    /// unvisited nodes and blue for special ones, where the palette gives
    /// them a colour of their own.
    pub fn ansi(has_unvisited: bool, has_special: bool) -> (r: Lut)
        ensures
            r.wf(),
            r.gradient@ == Self::ansi_gradient(),
            r.unvisited == if has_unvisited {
                Colour::DarkGrey
            } else {
                Colour::Reset
            },
            r.special == if has_special {
                Colour::Blue
            } else {
                Colour::Reset
            },
    {
        let mut gradient: Vec<Colour> = Vec::new();
        let mut i: usize = 0;
        while i < 256
            invariant
                i <= 256,
                gradient@.len() == i,
                forall|j: int| 0 <= j < i ==> #[trigger] gradient@[j] == Self::ansi_gradient()[j],
            decreases 256 - i,
        {
            let colour = if i < 4 {
                Colour::DarkRed
            } else if i < 8 {
                Colour::Red
            } else {
                Colour::White
            };
            gradient.push(colour);
            i += 1;
        }
        assert(gradient@ =~= Self::ansi_gradient());
        Lut {
            gradient,
            unvisited: if has_unvisited {
                Colour::DarkGrey
            } else {
                Colour::Reset
            },
            special: if has_special {
                Colour::Blue
            } else {
                Colour::Reset
            },
        }
    }
}

} // verus!
