//! Colors: the tile ids of a tiling.

use vstd::prelude::*;

verus! {

/// The color (tile id) of a node in a tiling; never zero.
#[derive(PartialEq, Eq, Structural, PartialOrd, Ord, Hash, Debug, Clone, Copy)]
pub struct Color(pub(crate) u8);

impl View for Color {
    type V = u8;

    closed spec fn view(&self) -> u8 {
        self.0
    }
}

impl Color {
    /// The color numbered `c`, which must not be zero.
    pub fn new(c: u8) -> (r: Color)
        requires
            c != 0,
        ensures
            r@ == c,
    {
        Color(c)
    }

    /// The number of the color.
    pub fn get(self) -> (r: u8)
        ensures
            r == self@,
    {
        self.0
    }

    /// The next color; the color numbered 255 has none.
    pub(crate) fn increment(&mut self)
        requires
            old(self)@ < 255,
        ensures
            final(self)@ == old(self)@ + 1,
    {
        self.0 = self.0 + 1;
    }
}

} // verus!
