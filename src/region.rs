//! Rectangular regions of a sprite sheet, as a manifest declares them and as
//! an atlas stores them.

use vstd::prelude::*;

verus! {

/// Pixel size of an image, and of an atlas once it is resolved.
#[derive(Clone, Copy, Debug, PartialEq, Eq, Structural)]
pub struct Size {
    pub width: u32,
    pub height: u32,
}

/// Inclusive pixel bounds of one sprite: `min` is its first pixel, `max`
/// its last one.
#[derive(Clone, Copy, Debug, PartialEq, Eq, Structural)]
pub struct Rect {
    pub min_x: u64,
    pub min_y: u64,
    pub max_x: u64,
    pub max_y: u64,
}

/// One rectangle of a manifest, as origin and extent, optionally named.
/// An empty name counts as no name.
#[derive(Clone, Debug)]
pub struct SpriteRegion {
    pub name: Option<String>,
    pub x: u32,
    pub y: u32,
    pub w: u32,
    pub h: u32,
}

/// What a region says, with its name as a sequence of characters.
pub struct RegionModel {
    pub name: Option<Seq<char>>,
    pub x: u32,
    pub y: u32,
    pub w: u32,
    pub h: u32,
}

impl View for SpriteRegion {
    type V = RegionModel;

    open spec fn view(&self) -> RegionModel {
        RegionModel {
            name: match self.name {
                Some(n) => Some(n@),
                None => None,
            },
            x: self.x,
            y: self.y,
            w: self.w,
            h: self.h,
        }
    }
}

impl RegionModel {
    /// Both extents are at least one pixel.
    pub open spec fn non_empty(self) -> bool {
        self.w > 0 && self.h > 0
    }

    /// The name under which the region can be looked up, if any.
    pub open spec fn lookup_name(self) -> Option<Seq<char>> {
        match self.name {
            Some(n) => if n.len() > 0 {
                Some(n)
            } else {
                None
            },
            None => None,
        }
    }

    /// The inclusive bounds of the region.
    pub open spec fn rect(self) -> Rect {
        Rect {
            min_x: self.x as u64,
            min_y: self.y as u64,
            max_x: (self.x + self.w - 1) as u64,
            max_y: (self.y + self.h - 1) as u64,
        }
    }
}

impl Rect {
    /// Width in pixels of inclusive bounds.
    pub open spec fn spec_width(self) -> int {
        self.max_x - self.min_x + 1
    }

    /// Height in pixels of inclusive bounds.
    pub open spec fn spec_height(self) -> int {
        self.max_y - self.min_y + 1
    }

    /// Bounds that a region of at least one pixel can give.
    pub open spec fn well_formed(self) -> bool {
        self.min_x <= self.max_x && self.min_y <= self.max_y && self.max_x - self.min_x
            < u32::MAX && self.max_y - self.min_y < u32::MAX
    }

    /// Width in pixels.
    pub fn width(&self) -> (r: u32)
        requires
            self.well_formed(),
        ensures
            r == self.spec_width(),
    {
        (self.max_x - self.min_x + 1) as u32
    }

    /// Height in pixels.
    pub fn height(&self) -> (r: u32)
        requires
            self.well_formed(),
        ensures
            r == self.spec_height(),
    {
        (self.max_y - self.min_y + 1) as u32
    }
}

impl SpriteRegion {
    /// A copy of the region that says the same.
    pub fn copy_region(&self) -> (r: SpriteRegion)
        ensures
            r@ == self@,
    {
        let name = match &self.name {
            Some(n) => Some(n.clone()),
            None => None,
        };
        SpriteRegion { name, x: self.x, y: self.y, w: self.w, h: self.h }
    }

    /// The inclusive bounds of the region: `min = (x, y)`,
    /// `max = (x + w - 1, y + h - 1)`.
    pub fn rect(&self) -> (r: Rect)
        requires
            self@.non_empty(),
        ensures
            r == self@.rect(),
            r.min_x == self.x,
            r.min_y == self.y,
            r.max_x == self.x + self.w - 1,
            r.max_y == self.y + self.h - 1,
    {
        Rect {
            min_x: self.x as u64,
            min_y: self.y as u64,
            max_x: self.x as u64 + self.w as u64 - 1,
            max_y: self.y as u64 + self.h as u64 - 1,
        }
    }
}

/// A region of at least one pixel turned into bounds starts at its origin,
/// ends at origin plus extent minus one, and gives its extent back.
pub proof fn rect_round_trip(region: RegionModel)
    requires
        region.non_empty(),
    ensures
        region.rect().min_x == region.x,
        region.rect().min_y == region.y,
        region.rect().max_x == region.x + region.w - 1,
        region.rect().max_y == region.y + region.h - 1,
        region.rect().well_formed(),
        region.rect().spec_width() == region.w,
        region.rect().spec_height() == region.h,
{
}

} // verus!
