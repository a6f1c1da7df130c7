use vstd::prelude::*;

verus! {

/// Ratios are fixed-point fractions: a split's first child receives
/// `ratio / RATIO_SCALE` of the space and its second child the rest, so the
/// two shares always sum to exactly one.
pub const RATIO_SCALE: u32 = 1_000_000;

/// The axis along which a split divides its rectangle.
#[derive(Clone, Copy, Debug, PartialEq, Eq, Structural)]
pub enum Orientation {
    /// Children side by side: the width is divided.
    Horizontal,
    /// Children stacked top to bottom: the height is divided.
    Vertical,
}

/// An axis-aligned rectangle in integer screen units.
#[derive(Clone, Copy, Debug, PartialEq, Eq, Structural)]
pub struct Rect {
    pub x: u32,
    pub y: u32,
    pub width: u32,
    pub height: u32,
}

impl Rect {
    pub fn new(x: u32, y: u32, width: u32, height: u32) -> (r: Rect)
        ensures
            r == (Rect { x, y, width, height }),
    {
        Rect { x, y, width, height }
    }

    /// The rectangle's far edges are representable.
    pub open spec fn fits(self) -> bool {
        self.x + self.width <= u32::MAX && self.y + self.height <= u32::MAX
    }

    /// The point lies inside the rectangle (the far edges are exclusive).
    pub open spec fn contains(self, px: int, py: int) -> bool {
        self.x <= px < self.x + self.width && self.y <= py < self.y + self.height
    }

    pub fn contains_point(&self, px: u32, py: u32) -> (r: bool)
        requires
            self.fits(),
        ensures
            r == self.contains(px as int, py as int),
    {
        self.x <= px && px - self.x < self.width && self.y <= py && py - self.y < self.height
    }
}

/// The length given to the first child when `len` is divided at `ratio`.
pub open spec fn first_extent(len: u32, ratio: u32) -> int {
    (len as int) * (ratio as int) / (RATIO_SCALE as int)
}

/// The two rectangles that a split at `ratio` along `orientation` gives.
pub open spec fn split_rect_spec(r: Rect, orientation: Orientation, ratio: u32) -> (Rect, Rect) {
    match orientation {
        Orientation::Horizontal => {
            let w1 = first_extent(r.width, ratio);
            (
                Rect { x: r.x, y: r.y, width: w1 as u32, height: r.height },
                Rect { x: (r.x + w1) as u32, y: r.y, width: (r.width - w1) as u32, height: r.height },
            )
        },
        Orientation::Vertical => {
            let h1 = first_extent(r.height, ratio);
            (
                Rect { x: r.x, y: r.y, width: r.width, height: h1 as u32 },
                Rect { x: r.x, y: (r.y + h1) as u32, width: r.width, height: (r.height - h1) as u32 },
            )
        },
    }
}

proof fn lemma_first_extent_bounds(len: u32, ratio: u32)
    requires
        ratio <= RATIO_SCALE,
    ensures
        0 <= first_extent(len, ratio) <= len,
        (len as int) * (ratio as int) <= u64::MAX,
{
    let l = len as int;
    let q = ratio as int;
    let s = RATIO_SCALE as int;
    assert(0 <= l * q <= l * s) by (nonlinear_arith)
        requires
            0 <= l,
            0 <= q <= s,
    ;
    assert(l * s / s == l) by (nonlinear_arith)
        requires
            s > 0,
    ;
    vstd::arithmetic::div_mod::lemma_div_is_ordered(l * q, l * s, s);
    assert(l * q <= u64::MAX) by (nonlinear_arith)
        requires
            0 <= l <= u32::MAX,
            0 <= q <= s,
            s == 1_000_000,
    ;
}

/// A split divides its rectangle into two that fit, cover it, and do not
/// overlap.
pub proof fn lemma_split_partitions(r: Rect, orientation: Orientation, ratio: u32)
    requires
        r.fits(),
        ratio <= RATIO_SCALE,
    ensures
        split_rect_spec(r, orientation, ratio).0.fits(),
        split_rect_spec(r, orientation, ratio).1.fits(),
        forall|px: int, py: int|
            #[trigger] r.contains(px, py) <==> (split_rect_spec(r, orientation, ratio).0.contains(px, py)
                || split_rect_spec(r, orientation, ratio).1.contains(px, py)),
        forall|px: int, py: int|
            !(#[trigger] split_rect_spec(r, orientation, ratio).0.contains(px, py)
                && split_rect_spec(r, orientation, ratio).1.contains(px, py)),
{
    lemma_first_extent_bounds(r.width, ratio);
    lemma_first_extent_bounds(r.height, ratio);
}

/// Divides `r` at `ratio` along `orientation`.
pub fn split_rect(r: Rect, orientation: Orientation, ratio: u32) -> (res: (Rect, Rect))
    requires
        r.fits(),
        ratio <= RATIO_SCALE,
    ensures
        res == split_rect_spec(r, orientation, ratio),
{
    proof {
        lemma_first_extent_bounds(r.width, ratio);
        lemma_first_extent_bounds(r.height, ratio);
    }
    match orientation {
        Orientation::Horizontal => {
            let w1 = ((r.width as u64) * (ratio as u64) / (RATIO_SCALE as u64)) as u32;
            (
                Rect { x: r.x, y: r.y, width: w1, height: r.height },
                Rect { x: r.x + w1, y: r.y, width: r.width - w1, height: r.height },
            )
        },
        Orientation::Vertical => {
            let h1 = ((r.height as u64) * (ratio as u64) / (RATIO_SCALE as u64)) as u32;
            (
                Rect { x: r.x, y: r.y, width: r.width, height: h1 },
                Rect { x: r.x, y: r.y + h1, width: r.width, height: r.height - h1 },
            )
        },
    }
}

} // verus!
