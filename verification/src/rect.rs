//! The framebuffer rectangle as it appears on the wire: inclusive origin,
//! exclusive extent, all fields 16-bit.
use vstd::prelude::*;

verus! {

/// A rectangle in framebuffer coordinates, as carried by the protocol.
#[derive(Debug, Clone, Copy, PartialEq, Eq, Structural)]
pub struct Rect {
    pub left: u16,
    pub top: u16,
    pub width: u16,
    pub height: u16,
}

impl Rect {
    /// The whole-framebuffer rectangle for a session of the given size.
    pub fn full_frame(width: u16, height: u16) -> (r: Rect)
        ensures
            r == (Rect { left: 0, top: 0, width, height }),
    {
        Rect { left: 0, top: 0, width, height }
    }

    /// Number of pixels covered.
    pub open spec fn spec_area(self) -> nat {
        (self.width * self.height) as nat
    }

    pub fn area(&self) -> (n: u64)
        ensures
            n == self.spec_area(),
    {
        proof {
            assert(self.width * self.height <= 0xffff * 0xffff) by (nonlinear_arith)
                requires
                    self.width <= 0xffff,
                    self.height <= 0xffff,
            ;
        }
        (self.width as u64) * (self.height as u64)
    }
}

} // verus!
