//! Drawing requests.

use vstd::prelude::*;

verus! {

#[derive(Debug, Clone, Copy, PartialEq, Eq, Structural)]
pub struct Point {
    pub x: u16,
    pub y: u16,
}

#[derive(Debug, Clone, Copy, PartialEq, Eq, Structural)]
pub struct Size {
    pub width: u16,
    pub height: u16,
}

#[derive(Debug, Clone, Copy, PartialEq, Eq, Structural)]
pub enum LineType {
    Straight,
    /// Rasterised exactly as a straight line.
    Curved,
}

#[derive(Debug, Clone, Copy, PartialEq, Eq, Structural)]
pub enum ShapeType {
    Rectangle,
    Circle,
    Oval,
    Triangle,
}

/// One drawing step; colours are `[r, g, b, a]`.
#[derive(Debug, Clone)]
pub enum DrawingOperation {
    DrawPixel { frame: usize, x: u16, y: u16, color: [u8; 4] },
    /// Changes nothing in a book.
    SetColor { color: [u8; 4] },
    DrawLine { frame: usize, start: Point, end: Point, line_type: LineType, color: [u8; 4] },
    DrawShape {
        frame: usize,
        shape: ShapeType,
        position: Point,
        size: Size,
        filled: bool,
        color: [u8; 4],
    },
    DrawPolygon { frame: usize, points: Vec<Point>, filled: bool, color: [u8; 4] },
    FillArea { frame: usize, x: u16, y: u16, color: [u8; 4] },
}

/// A batch of operations for one book.
#[derive(Debug, Clone)]
pub struct UpdatePixelBookRequest {
    pub operations: Vec<DrawingOperation>,
}

} // verus!
