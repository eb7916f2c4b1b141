//! Bright-pixel extraction and the candidate-count guard.
//!
//! The decoded image arrives as a flat row-major grid of 8-bit intensity
//! samples. Extraction walks every sample exactly once and keeps, in grid
//! order, the pixels strictly brighter than the threshold. A cost guard
//! refuses pathologically large candidate sets unless the operator forces the
//! computation on.

use vstd::prelude::*;
use vstd::arithmetic::div_mod::lemma_multiply_divide_lt;
use crate::cluster::spec_cluster;
use crate::geometry::Point;

verus! {

/// Largest candidate count the guard lets through without the forced flag.
pub const MAX_CANDIDATES: usize = 1000;

/// The candidate point for the sample at flat row-major index `i` of a grid
/// `width` samples wide.
pub open spec fn point_at(samples: Seq<u8>, width: u32, i: int) -> Point {
    Point { x: (i % (width as int)) as u32, y: (i / (width as int)) as u32, v: samples[i] }
}

/// The candidate points of a grid: the pixels whose sample is strictly above
/// the threshold, in flat row-major order.
pub open spec fn bright_points(samples: Seq<u8>, width: u32, threshold: u8) -> Seq<Point>
    decreases samples.len(),
{
    if samples.len() == 0 {
        Seq::empty()
    } else {
        let prefix = bright_points(samples.drop_last(), width, threshold);
        if samples.last() > threshold {
            prefix.push(point_at(samples, width, samples.len() - 1))
        } else {
            prefix
        }
    }
}

/// Scans the grid once and returns the candidate points in row-major order:
/// exactly the pixels whose sample exceeds the threshold, each carrying its
/// coordinates and sample.
pub fn find_bright_points(samples: &Vec<u8>, width: u32, height: u32, threshold: u8) -> (pts: Vec<
    Point,
>)
    requires
        width > 0,
        samples@.len() == (width as int) * (height as int),
    ensures
        pts@ == bright_points(samples@, width, threshold),
{
    let mut pts: Vec<Point> = Vec::new();
    let mut i: usize = 0;
    while i < samples.len()
        invariant
            i <= samples@.len(),
            width > 0,
            samples@.len() == (width as int) * (height as int),
            pts@ == bright_points(samples@.subrange(0, i as int), width, threshold),
        decreases samples@.len() - i,
    {
        let v = samples[i];
        proof {
            assert(samples@.subrange(0, i as int + 1).drop_last() =~= samples@.subrange(
                0,
                i as int,
            ));
            assert(samples@.subrange(0, i as int + 1).last() == samples@[i as int]);
            lemma_multiply_divide_lt(i as int, width as int, height as int);
        }
        if v > threshold {
            let x = (i % (width as usize)) as u32;
            let y = (i / (width as usize)) as u32;
            pts.push(Point { x, y, v });
            proof {
                assert(bright_points(samples@.subrange(0, i as int + 1), width, threshold)
                    == bright_points(samples@.subrange(0, i as int), width, threshold).push(
                    point_at(samples@.subrange(0, i as int + 1), width, i as int),
                ));
            }
        }
        i += 1;
    }
    proof {
        assert(samples@.subrange(0, samples@.len() as int) =~= samples@);
    }
    pts
}

/// The cost guard: the computation may proceed exactly when the candidate
/// count is at most `MAX_CANDIDATES` or the operator set the forced flag.
pub fn candidate_guard(count: usize, forced: bool) -> (proceed: bool)
    ensures
        proceed == (count <= MAX_CANDIDATES || forced),
{
    count <= MAX_CANDIDATES || forced
}

/// Law: a grid with no sample above the threshold yields no candidate points,
/// and clustering the empty candidate list yields no regions.
pub proof fn lemma_no_candidates_no_regions(samples: Seq<u8>, width: u32, threshold: u8, rs: u32)
    requires
        forall|i: int| 0 <= i < samples.len() ==> samples[i] <= threshold,
    ensures
        bright_points(samples, width, threshold) =~= Seq::<Point>::empty(),
        spec_cluster(bright_points(samples, width, threshold), rs) =~= Seq::<
            crate::geometry::Region,
        >::empty(),
    decreases samples.len(),
{
    if samples.len() > 0 {
        lemma_no_candidates_no_regions(samples.drop_last(), width, threshold, rs);
    }
}

} // verus!
