use vstd::prelude::*;

verus! {

/// One pixel: red, green, blue and alpha channel bytes.
#[derive(Clone)]
pub struct Color {
    pub r: u8,
    pub g: u8,
    pub b: u8,
    pub a: u8,
}

impl Color {
    /// A fully opaque pixel with the given color channels.
    pub fn from_rgb(r: u8, g: u8, b: u8) -> (c: Self)
        ensures
            c == (Color { r, g, b, a: 255u8 }),
    {
        Color { r, g, b, a: 255 }
    }

    /// A pixel with the given color and alpha channels.
    pub fn from_rgba(r: u8, g: u8, b: u8, a: u8) -> (c: Self)
        ensures
            c == (Color { r, g, b, a }),
    {
        Color { r, g, b, a }
    }

    /// A fully transparent black pixel.
    pub fn new() -> (c: Self)
        ensures
            c == (Color { r: 0u8, g: 0u8, b: 0u8, a: 0u8 }),
    {
        Color::from_rgba(0, 0, 0, 0)
    }
}

impl Default for Color {
    fn default() -> (c: Self)
        ensures
            c == (Color { r: 0u8, g: 0u8, b: 0u8, a: 0u8 }),
    {
        Self::new()
    }
}

} // verus!
