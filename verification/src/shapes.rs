//! Rectangles and their areas.

use vstd::prelude::*;

verus! {

#[derive(Clone, Copy, Debug, PartialEq, Eq, Structural)]
pub struct Rectangle {
    pub width: u32,
    pub height: u32,
}

impl Rectangle {
    pub fn area(&self) -> (a: u32)
        requires
            self.width * self.height <= u32::MAX,
        ensures
            a == self.width * self.height,
    {
        self.width * self.height
    }

    /// Whether the rectangle has a width at all.
    pub fn width(&self) -> (wide: bool)
        ensures
            wide == (self.width > 0),
    {
        self.width > 0
    }

    /// Whether `other` fits inside with room to spare on both sides.
    pub fn can_hold(&self, other: &Rectangle) -> (holds: bool)
        ensures
            holds == (self.width > other.width && self.height > other.height),
    {
        self.width > other.width && self.height > other.height
    }

    pub fn square(size: u32) -> (r: Rectangle)
        ensures
            r == (Rectangle { width: size, height: size }),
    {
        Rectangle { width: size, height: size }
    }
}

pub fn area1(width: u32, height: u32) -> (a: u32)
    requires
        width * height <= u32::MAX,
    ensures
        a == width * height,
{
    width * height
}

pub fn area2(dimensions: (u32, u32)) -> (a: u32)
    requires
        dimensions.0 * dimensions.1 <= u32::MAX,
    ensures
        a == dimensions.0 * dimensions.1,
{
    dimensions.0 * dimensions.1
}

pub fn area3(rectangle: &Rectangle) -> (a: u32)
    requires
        rectangle.width * rectangle.height <= u32::MAX,
    ensures
        a == rectangle.width * rectangle.height,
{
    rectangle.width * rectangle.height
}

} // verus!
