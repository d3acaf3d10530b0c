//! Probes that the matching engine looks for: single colors, color
//! constellations and reference images, with their tolerances.

use vstd::prelude::*;
use crate::geometry::{Point, Region};

verus! {

proof fn lemma_index_bound(w: int, h: int, x: int, y: int)
    requires
        0 <= x < w,
        0 <= y < h,
    ensures
        0 <= y * w + x,
        (y * w + x) * 4 + 3 < w * h * 4,
{
    assert(0 <= y * w + x) by (nonlinear_arith)
        requires
            0 <= x < w,
            0 <= y < h,
    ;
    assert(y * w + x < w * h) by (nonlinear_arith)
        requires
            0 <= x < w,
            0 <= y < h,
    ;
}


/// Offset of the first byte of pixel `(x, y)` in a row-major RGBA8 buffer
/// of `width` by `height` pixels.
pub fn rgba_offset(width: u32, height: u32, data: &Vec<u8>, x: u32, y: u32) -> (i: usize)
    requires
        data@.len() == width * height * 4,
        x < width,
        y < height,
    ensures
        i == (y * width + x) * 4,
        i + 3 < data@.len(),
{
    proof {
        lemma_index_bound(width as int, height as int, x as int, y as int);
    }
    let byte_count = data.len();
    assert(y as int * width as int <= y as int * width as int + x as int);
    let i = (y as usize * width as usize + x as usize) * 4;
    assert(i + 3 < byte_count);
    i
}

/// Tolerances are fractions of full scale in millionths: this value stands for 1.0.
pub const TOLERANCE_SCALE: u32 = 1_000_000;

/// Distance between two channel values.
pub open spec fn abs_diff(a: u8, b: u8) -> int {
    if a >= b {
        a - b
    } else {
        b - a
    }
}

/// The per-channel threshold that a group tolerance allows, in channel units.
pub open spec fn channel_threshold_spec(tolerance: u32) -> int {
    if tolerance >= TOLERANCE_SCALE {
        255
    } else {
        tolerance * 255 / TOLERANCE_SCALE as int
    }
}

pub fn channel_diff(a: u8, b: u8) -> (r: u8)
    ensures
        r == abs_diff(a, b),
{
    if a >= b {
        a - b
    } else {
        b - a
    }
}

/// Scales a group tolerance (millionths of full scale) to a channel threshold.
pub fn channel_threshold(tolerance: u32) -> (r: u8)
    ensures
        r == channel_threshold_spec(tolerance),
{
    if tolerance >= TOLERANCE_SCALE {
        255
    } else {
        assert(tolerance as int * 255 / TOLERANCE_SCALE as int <= 255) by (nonlinear_arith)
            requires
                tolerance < TOLERANCE_SCALE,
        ;
        ((tolerance as u64 * 255) / TOLERANCE_SCALE as u64) as u8
    }
}

/// A color that must appear exactly at one screen position.
#[derive(Clone, Copy, Debug, Default, PartialEq, Eq, Structural)]
pub struct ColorPoint {
    pub red: u8,
    pub green: u8,
    pub blue: u8,
    pub x: u32,
    pub y: u32,
}

impl ColorPoint {
    /// The screen position that the probe names.
    pub open spec fn point_spec(self) -> Point {
        Point { x: self.x as i32, y: self.y as i32 }
    }

    pub fn new(x: u32, y: u32, red: u8, green: u8, blue: u8) -> (r: ColorPoint)
        ensures
            r == (ColorPoint { red, green, blue, x, y }),
    {
        ColorPoint { red, green, blue, x, y }
    }

    pub fn point(&self) -> (r: Point)
        requires
            self.x <= i32::MAX,
            self.y <= i32::MAX,
        ensures
            r == self.point_spec(),
            r.x == self.x,
            r.y == self.y,
    {
        Point { x: self.x as i32, y: self.y as i32 }
    }
}

/// A color with a channel tolerance, to be looked for inside a region.
#[derive(Clone, Copy, Debug, Default, PartialEq, Eq, Structural)]
pub struct ColorPointIn {
    pub red: u8,
    pub green: u8,
    pub blue: u8,
    pub tolerance: u8,
    pub x: u32,
    pub y: u32,
    pub region: Region,
}

/// Errors of the probe constructors.
#[derive(Clone, Copy, Debug, PartialEq, Eq, Structural)]
pub enum GameBotError {
    ParseError,
}

/// How the per-pixel error of an image match is accumulated, with its limit
/// in millionths of full scale.
#[derive(Clone, Copy, Debug, PartialEq, Eq, Structural)]
pub enum Tolerance {
    /// Mean absolute channel error.
    MAE(u32),
    /// Mean squared channel error.
    MSE(u32),
    /// Largest channel error.
    MAX(u32),
}

/// An RGBA8 reference image, row-major, four bytes per pixel.
#[derive(Clone, Debug)]
pub struct Image {
    pub width: u32,
    pub height: u32,
    pub data: Vec<u8>,
}

impl Image {
    pub open spec fn wf(&self) -> bool {
        self.data@.len() == self.width * self.height * 4
    }

    /// Byte `c` (0 red, 1 green, 2 blue, 3 alpha) of the pixel at `(x, y)`.
    pub open spec fn channel(&self, x: int, y: int, c: int) -> u8 {
        self.data@[(y * self.width + x) * 4 + c]
    }

    /// Whether `data` holds exactly four bytes per pixel.
    pub fn is_wf(&self) -> (r: bool)
        ensures
            r == self.wf(),
    {
        assert(self.width as int * self.height as int * 4 <= u128::MAX) by (nonlinear_arith)
            requires
                self.width <= u32::MAX,
                self.height <= u32::MAX,
        ;
        (self.width as u128) * (self.height as u128) * 4 == self.data.len() as u128
    }

    /// An image of the given size, or `None` where `data` does not hold
    /// exactly four bytes per pixel.
    pub fn from_raw(width: u32, height: u32, data: Vec<u8>) -> (r: Option<Image>)
        ensures
            r.is_some() <==> data@.len() == width * height * 4,
            r.is_some() ==> r.unwrap().wf() && r.unwrap().width == width && r.unwrap().height
                == height && r.unwrap().data@ == data@,
    {
        assert(width as int * height as int * 4 <= u128::MAX) by (nonlinear_arith)
            requires
                width <= u32::MAX,
                height <= u32::MAX,
        ;
        let n = (width as u128) * (height as u128) * 4;
        if n == data.len() as u128 {
            Some(Image { width, height, data })
        } else {
            None
        }
    }
}

/// A reference image to be found inside `region`.
#[derive(Clone, Debug)]
pub struct ImageIn {
    pub img: Image,
    pub region: Region,
    pub tolerance: Tolerance,
}

impl ImageIn {
    pub open spec fn wf(&self) -> bool {
        self.img.wf()
    }

    /// The same reference image, searched for in another region.
    pub fn within(&self, region: Region) -> (r: ImageIn)
        ensures
            r.img.width == self.img.width,
            r.img.height == self.img.height,
            r.img.data@ == self.img.data@,
            r.region == region,
            r.tolerance == self.tolerance,
    {
        let img = Image {
            width: self.img.width,
            height: self.img.height,
            data: self.img.data.clone(),
        };
        ImageIn { img, region, tolerance: self.tolerance }
    }
}

/// Colors that must all appear at their own positions; element 0 is the anchor.
#[derive(Clone, Debug, Default)]
pub struct ColorPointGroup {
    pub group: Vec<ColorPoint>,
    /// Per-channel tolerance, in millionths of full scale.
    pub tolerance: u32,
}

/// A color constellation that may appear anywhere inside `region`, shifted
/// as a whole; element 0 is the anchor.
#[derive(Clone, Debug, Default)]
pub struct ColorPointGroupIn {
    pub group: Vec<ColorPoint>,
    /// Per-channel tolerance, in millionths of full scale.
    pub tolerance: u32,
    pub region: Region,
}

} // verus!
