use vstd::prelude::*;

verus! {

/// One RGBA color sample, one byte per channel.
#[derive(Clone, Copy, Debug, PartialEq, Eq, Structural)]
pub struct Rgba {
    pub r: u8,
    pub g: u8,
    pub b: u8,
    pub a: u8,
}

/// The color a freshly created image pixel holds.
pub open spec fn black() -> Rgba {
    Rgba { r: 0, g: 0, b: 0, a: 255 }
}

/// Border color of the built-in sample pattern.
pub open spec fn white() -> Rgba {
    Rgba { r: 255, g: 255, b: 255, a: 255 }
}

/// Center color of the built-in sample pattern.
pub open spec fn maroon() -> Rgba {
    Rgba { r: 190, g: 33, b: 55, a: 255 }
}

/// Sentinel color shown for a cell whose domain is empty (a contradiction).
pub open spec fn magenta() -> Rgba {
    Rgba { r: 255, g: 0, b: 255, a: 255 }
}

/// Placeholder color of a cell before its first derived color is computed.
pub open spec fn peach() -> Rgba {
    Rgba { r: 255, g: 218, b: 185, a: 255 }
}

impl Rgba {
    pub fn new(r: u8, g: u8, b: u8, a: u8) -> (c: Rgba)
        ensures
            c == (Rgba { r, g, b, a }),
    {
        Rgba { r, g, b, a }
    }
}

} // verus!
