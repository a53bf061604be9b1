use vstd::prelude::*;

verus! {

/// An opaque colour with eight bits per channel.
#[derive(Clone, Copy, Debug, PartialEq, Eq, Structural)]
pub struct Color {
    pub red: u8,
    pub green: u8,
    pub blue: u8,
}

impl Color {
    /// The four bytes that stand for this colour in an RGBA stream: the three
    /// channels, then full opacity.
    pub open spec fn rgba(self) -> Seq<u8> {
        seq![self.red, self.green, self.blue, 255u8]
    }

    pub fn new(red: u8, green: u8, blue: u8) -> (c: Color)
        ensures
            c == (Color { red, green, blue }),
    {
        Color { red, green, blue }
    }

    /// The named colour white.
    pub fn white() -> (c: Color)
        ensures
            c == (Color { red: 255, green: 255, blue: 255 }),
    {
        Color { red: 255, green: 255, blue: 255 }
    }

    /// The named colour black.
    pub fn black() -> (c: Color)
        ensures
            c == (Color { red: 0, green: 0, blue: 0 }),
    {
        Color { red: 0, green: 0, blue: 0 }
    }

    /// The named colour red.
    pub fn red() -> (c: Color)
        ensures
            c == (Color { red: 255, green: 0, blue: 0 }),
    {
        Color { red: 255, green: 0, blue: 0 }
    }

    /// The named colour green.
    pub fn green() -> (c: Color)
        ensures
            c == (Color { red: 0, green: 255, blue: 0 }),
    {
        Color { red: 0, green: 255, blue: 0 }
    }

    /// The named colour blue.
    pub fn blue() -> (c: Color)
        ensures
            c == (Color { red: 0, green: 0, blue: 255 }),
    {
        Color { red: 0, green: 0, blue: 255 }
    }

    /// The channels of this colour followed by an alpha of 255.
    pub fn to_rgba(&self) -> (q: (u8, u8, u8, u8))
        ensures
            q == (self.red, self.green, self.blue, 255u8),
            seq![q.0, q.1, q.2, q.3] == self.rgba(),
    {
        (self.red, self.green, self.blue, 255)
    }
}

} // verus!
