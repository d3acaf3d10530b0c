//! Points, rectangles and search regions in screen coordinates.

use vstd::prelude::*;
use crate::gesture::{click, TouchAction, TouchEvent};

verus! {

/// An integer screen coordinate.
#[derive(Clone, Copy, Debug, PartialEq, Eq, Structural)]
pub struct Point {
    pub x: i32,
    pub y: i32,
}

impl Point {
    /// Row-major scan order: `self` comes strictly before `other`.
    pub open spec fn before(self, other: Point) -> bool {
        self.y < other.y || (self.y == other.y && self.x < other.x)
    }

    pub fn new(x: i32, y: i32) -> (r: Point)
        ensures
            r.x == x,
            r.y == y,
    {
        Point { x, y }
    }

    /// The touches of a tap on this point.
    pub fn click(&self) -> (r: Vec<TouchEvent>)
        ensures
            r@.len() == 2,
            r@[0] == (TouchEvent { x: self.x, y: self.y, id: 0, action: TouchAction::Down, time: 0, step: 0 }),
            r@[1] == (TouchEvent { x: self.x, y: self.y, id: 0, action: TouchAction::Up, time: 0, step: 1 }),
    {
        click(self.x, self.y)
    }
}

/// A rectangle that may reach past the screen's top-left corner.
#[derive(Clone, Copy, Debug, Default, PartialEq, Eq, Structural)]
pub struct Rect {
    pub left: i32,
    pub top: i32,
    pub width: u32,
    pub height: u32,
}

impl Rect {
    pub open spec fn right_spec(self) -> int {
        self.left + self.width
    }

    pub open spec fn bottom_spec(self) -> int {
        self.top + self.height
    }

    pub open spec fn contains_spec(self, other: Rect) -> bool {
        &&& other.left >= self.left
        &&& other.right_spec() <= self.right_spec()
        &&& other.top >= self.top
        &&& other.bottom_spec() <= self.bottom_spec()
    }

    pub fn right(&self) -> (r: i32)
        requires
            self.right_spec() <= i32::MAX,
        ensures
            r == self.right_spec(),
    {
        (self.left as i64 + self.width as i64) as i32
    }

    pub fn bottom(&self) -> (r: i32)
        requires
            self.bottom_spec() <= i32::MAX,
        ensures
            r == self.bottom_spec(),
    {
        (self.top as i64 + self.height as i64) as i32
    }

    /// Whether `other` lies fully inside `self`.
    pub fn contains(&self, other: &Rect) -> (r: bool)
        ensures
            r == self.contains_spec(*other),
    {
        other.left >= self.left && other.left as i64 + other.width as i64 <= self.left as i64
            + self.width as i64 && other.top >= self.top && other.top as i64 + other.height as i64
            <= self.top as i64 + self.height as i64
    }
}

/// The region that covers a whole screen of the given size.
pub fn fullscreen_region(width: u32, height: u32) -> (r: Region)
    ensures
        r == (Region { left: 0, top: 0, width, height }),
{
    Region { left: 0, top: 0, width, height }
}

/// A search region on the screen: `width` columns from `left`, `height` rows from `top`.
#[derive(Clone, Copy, Debug, Default, PartialEq, Eq, Structural)]
pub struct Region {
    pub left: u32,
    pub top: u32,
    pub width: u32,
    pub height: u32,
}

impl Region {
    pub open spec fn right_spec(self) -> int {
        self.left + self.width
    }

    pub open spec fn bottom_spec(self) -> int {
        self.top + self.height
    }

    pub open spec fn contains_spec(self, other: Region) -> bool {
        &&& other.left >= self.left
        &&& other.right_spec() <= self.right_spec()
        &&& other.top >= self.top
        &&& other.bottom_spec() <= self.bottom_spec()
    }

    /// Whether the pixel at `(x, y)` lies inside the region.
    pub open spec fn holds(self, x: int, y: int) -> bool {
        self.left <= x < self.right_spec() && self.top <= y < self.bottom_spec()
    }

    pub fn new(left: u32, top: u32, width: u32, height: u32) -> (r: Region)
        ensures
            r == (Region { left, top, width, height }),
    {
        Region { left, top, width, height }
    }

    pub fn right(&self) -> (r: u32)
        requires
            self.right_spec() <= u32::MAX,
        ensures
            r == self.right_spec(),
    {
        self.left + self.width
    }

    pub fn bottom(&self) -> (r: u32)
        requires
            self.bottom_spec() <= u32::MAX,
        ensures
            r == self.bottom_spec(),
    {
        self.top + self.height
    }

    /// Whether `other` lies fully inside `self`.
    pub fn contains(&self, other: &Region) -> (r: bool)
        ensures
            r == self.contains_spec(*other),
    {
        other.left >= self.left && other.left as u64 + other.width as u64 <= self.left as u64
            + self.width as u64 && other.top >= self.top && other.top as u64 + other.height as u64
            <= self.top as u64 + self.height as u64
    }
}

} // verus!
