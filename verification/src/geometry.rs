//! Candidate points and rectangular regions.
//!
//! A `Point` is one bright pixel; a `Region` is a growing rectangular cluster
//! that tracks its bounding box and a running centroid. Containment is tested
//! against a window of half-width `rs / 2` around the centroid; the lower
//! window edges saturate at the image origin instead of faulting, which is the
//! one documented deviation from a design that would abort on underflow.

use vstd::prelude::*;

verus! {

/// A candidate bright pixel: 0-based coordinates and an intensity sample.
#[derive(Clone, Copy, Debug, PartialEq, Eq, Structural)]
pub struct Point {
    pub x: u32,
    pub y: u32,
    pub v: u8,
}

/// An accumulating rectangular cluster: a bounding box (`tl`, `br`), the
/// running centroid `c`, and the configured containment half-window span `rs`.
///
/// The intensity fields of `tl` and `br` keep whatever the seeds carried and
/// are not geometrically meaningful after growth; the centroid's intensity
/// `c.v` is a pairwise running average updated on every absorption.
#[derive(Clone, Copy, Debug, PartialEq, Eq, Structural)]
pub struct Region {
    pub tl: Point,
    pub br: Point,
    pub c: Point,
    pub rs: u32,
}

/// Lower edge of a containment window: `c - half`, saturating at zero so that
/// windows near the image origin clamp instead of underflowing.
pub open spec fn window_lo(c: u32, half: u32) -> int {
    if c >= half {
        c - half
    } else {
        0
    }
}

/// Containment: the point lies inside the square window of half-width
/// `r.rs / 2` (truncating division) around the region's centroid, both bounds
/// inclusive, the lower bounds saturating at zero.
pub open spec fn spec_is_within(p: Point, r: Region) -> bool {
    let half = r.rs / 2;
    &&& window_lo(r.c.x, half) <= p.x
    &&& p.x <= r.c.x + half
    &&& window_lo(r.c.y, half) <= p.y
    &&& p.y <= r.c.y + half
}

/// Midpoint of two coordinates, truncating.
pub open spec fn avg_u32(a: u32, b: u32) -> u32 {
    (((a + b) as int) / 2) as u32
}

/// Midpoint of two intensity samples, truncating.
pub open spec fn avg_u8(a: u8, b: u8) -> u8 {
    (((a + b) as int) / 2) as u8
}

/// The region built from two corner points: the bounding box is exactly the
/// corners, the centroid sits at their midpoint, and the centroid intensity
/// starts as the corners' average (so a region seeded from a single point
/// starts at that point with its own intensity).
pub open spec fn spec_new(tl: Point, br: Point, rs: u32) -> Region {
    Region {
        tl,
        br,
        c: Point { x: avg_u32(tl.x, br.x), y: avg_u32(tl.y, br.y), v: avg_u8(tl.v, br.v) },
        rs,
    }
}

/// The region after absorbing one point: the bounding box stretches just far
/// enough to cover the point, the centroid moves to the new box midpoint, and
/// the centroid intensity becomes the pairwise average of the old centroid
/// intensity and the point's sample.
pub open spec fn spec_glue(r: Region, p: Point) -> Region {
    let tl = Point {
        x: if p.x < r.tl.x { p.x } else { r.tl.x },
        y: if p.y < r.tl.y { p.y } else { r.tl.y },
        v: r.tl.v,
    };
    let br = Point {
        x: if p.x > r.br.x { p.x } else { r.br.x },
        y: if p.y > r.br.y { p.y } else { r.br.y },
        v: r.br.v,
    };
    Region {
        tl,
        br,
        c: Point { x: avg_u32(tl.x, br.x), y: avg_u32(tl.y, br.y), v: avg_u8(r.c.v, p.v) },
        rs: r.rs,
    }
}

impl Point {
    /// True iff the point lies within the region's containment window.
    pub fn is_within(&self, r: &Region) -> (b: bool)
        ensures
            b == spec_is_within(*self, *r),
    {
        let half = r.rs / 2;
        let lx: u32 = if r.c.x >= half {
            r.c.x - half
        } else {
            0
        };
        let ly: u32 = if r.c.y >= half {
            r.c.y - half
        } else {
            0
        };
        lx <= self.x && (self.x as u64) <= (r.c.x as u64) + (half as u64) && ly <= self.y && (
        self.y as u64) <= (r.c.y as u64) + (half as u64)
    }
}

impl Region {
    /// A region is well formed when its bounding box is ordered and its
    /// centroid coordinates sit at the box midpoint.
    pub open spec fn wf(self) -> bool {
        &&& self.tl.x <= self.br.x
        &&& self.tl.y <= self.br.y
        &&& self.c.x == avg_u32(self.tl.x, self.br.x)
        &&& self.c.y == avg_u32(self.tl.y, self.br.y)
    }

    /// Builds a region from two corner points and a half-window span.
    pub fn new(tl: &Point, br: &Point, rs: u32) -> (r: Region)
        ensures
            r == spec_new(*tl, *br, rs),
            tl.x <= br.x && tl.y <= br.y ==> r.wf(),
    {
        let cx = (((tl.x as u64) + (br.x as u64)) / 2) as u32;
        let cy = (((tl.y as u64) + (br.y as u64)) / 2) as u32;
        let cv = (((tl.v as u16) + (br.v as u16)) / 2) as u8;
        Region { tl: *tl, br: *br, c: Point { x: cx, y: cy, v: cv }, rs }
    }

    /// Recomputes the centroid coordinates from the bounding box. The running
    /// centroid intensity is maintained by `glue` alone and is left untouched.
    pub fn center(&mut self) -> (c: Point)
        ensures
            final(self).tl == old(self).tl,
            final(self).br == old(self).br,
            final(self).rs == old(self).rs,
            final(self).c.v == old(self).c.v,
            final(self).c.x == avg_u32(old(self).tl.x, old(self).br.x),
            final(self).c.y == avg_u32(old(self).tl.y, old(self).br.y),
            c == final(self).c,
    {
        self.c.x = (((self.tl.x as u64) + (self.br.x as u64)) / 2) as u32;
        self.c.y = (((self.tl.y as u64) + (self.br.y as u64)) / 2) as u32;
        self.c
    }

    /// Absorbs one point: stretches the bounding box over it, folds its
    /// intensity into the centroid as a pairwise average, and recenters.
    pub fn glue(&mut self, p: Point) -> (c: Point)
        ensures
            *final(self) == spec_glue(*old(self), p),
            c == final(self).c,
    {
        if p.x < self.tl.x {
            self.tl.x = p.x;
        }
        if p.x > self.br.x {
            self.br.x = p.x;
        }
        if p.y < self.tl.y {
            self.tl.y = p.y;
        }
        if p.y > self.br.y {
            self.br.y = p.y;
        }
        self.c.v = (((self.c.v as u16) + (p.v as u16)) / 2) as u8;
        self.center()
    }

    /// Alias for `glue`.
    pub fn expand(&mut self, p: Point) -> (c: Point)
        ensures
            *final(self) == spec_glue(*old(self), p),
            c == final(self).c,
    {
        self.glue(p)
    }
}

/// Absorbing a point keeps the region well formed.
pub proof fn lemma_glue_preserves_wf(r: Region, p: Point)
    requires
        r.wf(),
    ensures
        spec_glue(r, p).wf(),
{
}

/// Law: containment survives absorption. A point lying within a well-formed
/// region's window still lies within the window after the region absorbs it,
/// so a removal sweep made against the grown region always consumes the
/// points just absorbed.
pub proof fn lemma_absorbed_point_stays_within(p: Point, r: Region)
    requires
        r.wf(),
        spec_is_within(p, r),
    ensures
        spec_is_within(p, spec_glue(r, p)),
{
    lemma_axis_containment(r.tl.x, r.br.x, r.c.x, p.x, r.rs / 2);
    lemma_axis_containment(r.tl.y, r.br.y, r.c.y, p.y, r.rs / 2);
}

/// One axis of the containment-idempotence argument: moving one end of an
/// ordered interval out to a coordinate that lies in the window around the
/// interval's midpoint keeps that coordinate in the window around the new
/// midpoint.
proof fn lemma_axis_containment(lo: u32, hi: u32, c: u32, p: u32, half: u32)
    requires
        lo <= hi,
        c == avg_u32(lo, hi),
        window_lo(c, half) <= p,
        p <= c + half,
    ensures
        ({
            let lo2: u32 = if p < lo { p } else { lo };
            let hi2: u32 = if p > hi { p } else { hi };
            let c2 = avg_u32(lo2, hi2);
            window_lo(c2, half) <= p && p <= c2 + half
        }),
{
    let lo2: u32 = if p < lo { p } else { lo };
    let hi2: u32 = if p > hi { p } else { hi };
    let c2 = avg_u32(lo2, hi2);
    if p < lo {
        // The midpoint can only move down, and never below `p` itself.
        assert((p + p) / 2 <= (p + hi) / 2 && (p + hi) / 2 <= (lo + hi) / 2);
        assert(p <= c2 && c2 <= c);
    } else if p > hi {
        // The midpoint can only move up, and never above `p` itself.
        assert((lo + hi) / 2 <= (lo + p) / 2 && (lo + p) / 2 <= (p + p) / 2);
        assert(c <= c2 && c2 <= p);
    } else {
        assert(c2 == c);
    }
}

} // verus!
