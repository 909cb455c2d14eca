//! Integer points, rectangles and sizes of the tile grid.
use vstd::prelude::*;

verus! {

/// A point of the tile grid (a column and a row).
#[derive(Debug, Clone, Copy, PartialEq, Eq, Structural)]
pub struct UVec2 {
    pub x: u32,
    pub y: u32,
}

/// Makes the grid point `(x, y)`.
pub fn uvec2(x: u32, y: u32) -> (r: UVec2)
    ensures
        r == (UVec2 { x, y }),
{
    UVec2 { x, y }
}

impl UVec2 {
    /// Makes the grid point `(x, y)`.
    pub fn new(x: u32, y: u32) -> (r: UVec2)
        ensures
            r == (UVec2 { x, y }),
    {
        UVec2 { x, y }
    }
}

/// A rectangle of grid cells: its top left cell `(x, y)`, its width `w` and its height `h`.
#[derive(Debug, Clone, Copy, PartialEq, Eq, Structural)]
pub struct URect {
    pub x: u32,
    pub y: u32,
    pub w: u32,
    pub h: u32,
}

impl URect {
    /// Makes the rectangle with top left cell `(x, y)`, width `w` and height `h`.
    pub fn new(x: u32, y: u32, w: u32, h: u32) -> (r: URect)
        ensures
            r == (URect { x, y, w, h }),
    {
        URect { x, y, w, h }
    }
}

/// A width and a height.
#[derive(Debug, Clone, Copy, PartialEq, Eq, Structural)]
pub struct Size<T> {
    pub width: T,
    pub height: T,
}

impl<T> Size<T> {
    /// Makes the size `width` by `height`.
    pub fn new(width: T, height: T) -> (r: Size<T>)
        ensures
            r == (Size { width, height }),
    {
        Size { width, height }
    }
}

impl Size<u32> {
    /// The size whose width is `v.x` and whose height is `v.y`.
    pub fn from_uvec2(v: UVec2) -> (r: Size<u32>)
        ensures
            r == (Size { width: v.x, height: v.y }),
    {
        Size { width: v.x, height: v.y }
    }

    /// The empty size.
    pub fn zero() -> (r: Size<u32>)
        ensures
            r == (Size { width: 0u32, height: 0u32 }),
    {
        Size { width: 0, height: 0 }
    }
}

} // verus!
