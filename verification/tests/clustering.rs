use img_bri_groups::cluster::cluster;
use img_bri_groups::extract::{candidate_guard, find_bright_points, MAX_CANDIDATES};
use img_bri_groups::geometry::Point;

/// A width x height grid of `background`, with the square block
/// [bx, bx+side) x [by, by+side) set to `value`.
fn grid_with_block(
    width: usize,
    height: usize,
    background: u8,
    bx: usize,
    by: usize,
    side: usize,
    value: u8,
) -> Vec<u8> {
    let mut samples = vec![background; width * height];
    for y in by..by + side {
        for x in bx..bx + side {
            samples[y * width + x] = value;
        }
    }
    samples
}

#[test]
fn empty_candidates_empty_regions() {
    let regions = cluster(Vec::new(), 5);
    assert!(regions.is_empty());
}

#[test]
fn no_bright_pixels_no_regions() {
    // every sample at or below the threshold: no candidates, no regions
    let samples = vec![40u8; 20 * 20];
    let pts = find_bright_points(&samples, 20, 20, 40);
    assert!(pts.is_empty());
    let regions = cluster(pts, 5);
    assert!(regions.is_empty());
}

#[test]
fn single_point_seeds_single_region() {
    let p = Point { x: 6, y: 3, v: 120 };
    let regions = cluster(vec![p], 5);
    assert_eq!(regions.len(), 1);
    assert_eq!(regions[0].c.x, 6);
    assert_eq!(regions[0].c.y, 3);
    assert_eq!(regions[0].c.v, 120);
    assert_eq!(regions[0].rs, 5);
}

#[test]
fn end_to_end_single_block() {
    // a 20x20 grid with one 3x3 block of 200 on background 0: exactly one
    // region, centered on the block's geometric center, holding the
    // pairwise-averaged intensity of the absorbed pixels (all 200 here)
    let samples = grid_with_block(20, 20, 0, 8, 8, 3, 200);
    let pts = find_bright_points(&samples, 20, 20, 40);
    assert_eq!(pts.len(), 9);
    let regions = cluster(pts, 5);
    assert_eq!(regions.len(), 1);
    assert_eq!(regions[0].c.x, 9);
    assert_eq!(regions[0].c.y, 9);
    assert_eq!(regions[0].c.v, 200);
    assert_eq!(regions[0].tl.x, 8);
    assert_eq!(regions[0].tl.y, 8);
    assert_eq!(regions[0].br.x, 10);
    assert_eq!(regions[0].br.y, 10);
}

#[test]
fn two_far_blocks_two_regions() {
    let p_a = Point { x: 2, y: 2, v: 100 };
    let p_b = Point { x: 15, y: 15, v: 255 };
    let regions = cluster(vec![p_a, p_b], 5);
    assert_eq!(regions.len(), 2);
    // the first region is seeded from the last pending point
    assert_eq!(regions[0].c.x, 15);
    assert_eq!(regions[0].c.y, 15);
    assert_eq!(regions[0].c.v, 255);
    assert_eq!(regions[1].c.x, 2);
    assert_eq!(regions[1].c.y, 2);
    assert_eq!(regions[1].c.v, 100);
}

#[test]
fn deterministic_output() {
    // same candidates, same span: identical region lists, order included
    let samples = grid_with_block(30, 30, 10, 4, 4, 3, 220);
    let more = grid_with_block(30, 30, 10, 20, 18, 2, 180);
    let mut merged = samples.clone();
    for (dst, src) in merged.iter_mut().zip(more.iter()) {
        if *src > 10 {
            *dst = *src;
        }
    }
    let first = cluster(find_bright_points(&merged, 30, 30, 40), 5);
    let second = cluster(find_bright_points(&merged, 30, 30, 40), 5);
    assert_eq!(first.len(), second.len());
    for (a, b) in first.iter().zip(second.iter()) {
        assert_eq!(a, b);
    }
    assert_eq!(first.len(), 2);
}

#[test]
fn every_candidate_lands_in_exactly_one_region() {
    // two well-separated blocks: every candidate point ends up within exactly
    // one of the two final regions
    let mut samples = grid_with_block(30, 30, 0, 4, 4, 3, 200);
    let other = grid_with_block(30, 30, 0, 20, 20, 3, 200);
    for (dst, src) in samples.iter_mut().zip(other.iter()) {
        if *src > 0 {
            *dst = *src;
        }
    }
    let pts = find_bright_points(&samples, 30, 30, 40);
    assert_eq!(pts.len(), 18);
    let regions = cluster(pts.clone(), 5);
    assert_eq!(regions.len(), 2);
    for p in pts.iter() {
        let mut hits: usize = 0;
        for r in regions.iter() {
            if p.is_within(r) {
                hits += 1;
            }
        }
        assert_eq!(hits, 1);
    }
}

#[test]
fn guard_refuses_pathological_counts() {
    assert!(!candidate_guard(MAX_CANDIDATES + 1, false));
    assert!(candidate_guard(MAX_CANDIDATES + 1, true));
    assert!(candidate_guard(MAX_CANDIDATES, false));
    assert!(candidate_guard(0, false));
}

#[test]
fn guard_scenario_forced_run_proceeds() {
    // a 40x40 all-bright grid has 1600 candidates: the guard trips without the
    // forced flag, and a forced run still produces a nonempty region list
    let samples = vec![200u8; 40 * 40];
    let pts = find_bright_points(&samples, 40, 40, 40);
    assert_eq!(pts.len(), 1600);
    assert!(!candidate_guard(pts.len(), false));
    assert!(candidate_guard(pts.len(), true));
    let regions = cluster(pts, 5);
    assert!(!regions.is_empty());
}
