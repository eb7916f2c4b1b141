//! The region-growing clusterer.
//!
//! Candidates are held in a pending list; regions grow by sweeping it. Each
//! sweep of a region first absorbs, in list order, every pending point that
//! lies within a snapshot of the region taken before the sweep, then drops
//! from the pending list every point that lies within the grown region. When a
//! full sweep over all regions leaves points pending, the last pending point
//! is popped and seeds a new singleton region. The process is deterministic:
//! the executable clusterer returns exactly the value of the `spec_cluster`
//! model of this procedure.

use vstd::prelude::*;
use vstd::multiset::Multiset;
use vstd::multiset::group_multiset_axioms;
use vstd::seq_lib::group_to_multiset_ensures;
use crate::geometry::{lemma_glue_preserves_wf, Point, Region, spec_glue, spec_is_within, spec_new};

verus! {

/// One region's absorption pass: fold the points of `pts` that lie within the
/// fixed snapshot `snap` into `r`, in list order.
pub open spec fn absorb_pass(r: Region, snap: Region, pts: Seq<Point>) -> Region
    decreases pts.len(),
{
    if pts.len() == 0 {
        r
    } else {
        let r1 = if spec_is_within(pts[0], snap) {
            spec_glue(r, pts[0])
        } else {
            r
        };
        absorb_pass(r1, snap, pts.drop_first())
    }
}

/// One full sweep of a single region over the pending list: grow the region by
/// an absorption pass judged against its own pre-sweep state, then split the
/// pending list by containment in the grown region. Returns the grown region,
/// the points kept pending, and the points the region consumed.
pub open spec fn sweep_step(r: Region, pts: Seq<Point>) -> (Region, Seq<Point>, Seq<Point>) {
    let r2 = absorb_pass(r, r, pts);
    let kept = pts.filter(|p: Point| !spec_is_within(p, r2));
    let absorbed = pts.filter(|p: Point| spec_is_within(p, r2));
    (r2, kept, absorbed)
}

/// Sweeps the regions from index `i` on, in creation order, threading the
/// pending list through. `hist` records, per region, the points it has
/// consumed so far; each sweep appends to the swept region's history.
pub open spec fn sweep_regions(
    rgns: Seq<Region>,
    hist: Seq<Seq<Point>>,
    i: int,
    pts: Seq<Point>,
) -> (Seq<Region>, Seq<Seq<Point>>, Seq<Point>)
    decreases rgns.len() - i,
{
    if i < 0 || i >= rgns.len() {
        (rgns, hist, pts)
    } else {
        let step = sweep_step(rgns[i], pts);
        sweep_regions(
            rgns.update(i, step.0),
            hist.update(i, hist[i] + step.2),
            i + 1,
            step.1,
        )
    }
}

/// A sweep never lengthens the pending list.
pub proof fn lemma_sweep_regions_len(
    rgns: Seq<Region>,
    hist: Seq<Seq<Point>>,
    i: int,
    pts: Seq<Point>,
)
    ensures
        sweep_regions(rgns, hist, i, pts).2.len() <= pts.len(),
    decreases rgns.len() - i,
{
    if 0 <= i < rgns.len() {
        let step = sweep_step(rgns[i], pts);
        pts.lemma_filter_len(|p: Point| !spec_is_within(p, step.0));
        lemma_sweep_regions_len(rgns.update(i, step.0), hist.update(i, hist[i] + step.2), i + 1, step.1);
    }
}

/// The outer clustering loop: sweep every region over the pending list; if
/// points remain, pop the last one, seed a new region of half-window span `rs`
/// at it, and repeat until the pending list is empty. Returns the regions in
/// creation order together with their absorption histories.
pub open spec fn cluster_loop(
    rgns: Seq<Region>,
    hist: Seq<Seq<Point>>,
    pts: Seq<Point>,
    rs: u32,
) -> (Seq<Region>, Seq<Seq<Point>>)
    decreases pts.len(),
    via cluster_loop_decreases
{
    if pts.len() == 0 {
        (rgns, hist)
    } else {
        let swept = sweep_regions(rgns, hist, 0, pts);
        if swept.2.len() == 0 {
            (swept.0, swept.1)
        } else {
            let seed = swept.2.last();
            cluster_loop(
                swept.0.push(spec_new(seed, seed, rs)),
                swept.1.push(seq![seed]),
                swept.2.drop_last(),
                rs,
            )
        }
    }
}

#[via_fn]
proof fn cluster_loop_decreases(rgns: Seq<Region>, hist: Seq<Seq<Point>>, pts: Seq<Point>, rs: u32) {
    if pts.len() > 0 {
        lemma_sweep_regions_len(rgns, hist, 0, pts);
    }
}

/// The final region list for a candidate list and half-window span.
pub open spec fn spec_cluster(pts: Seq<Point>, rs: u32) -> Seq<Region> {
    cluster_loop(Seq::empty(), Seq::empty(), pts, rs).0
}

/// The final absorption histories: `spec_histories(pts, rs)[k]` holds, in
/// consumption order, the candidate points consumed by the `k`-th region of
/// `spec_cluster(pts, rs)`.
pub open spec fn spec_histories(pts: Seq<Point>, rs: u32) -> Seq<Seq<Point>> {
    cluster_loop(Seq::empty(), Seq::empty(), pts, rs).1
}

/// Groups the candidate points into regions of half-window span `region_size`.
///
/// The result is pinned exactly: it equals the `spec_cluster` model of the
/// iterative procedure, so for a fixed candidate list and span the region
/// list — order and values — is fully reproducible. An empty candidate list
/// yields an empty region list.
pub fn cluster(points: Vec<Point>, region_size: u32) -> (regions: Vec<Region>)
    ensures
        regions@ == spec_cluster(points@, region_size),
        points@.len() == 0 ==> regions@.len() == 0,
        forall|k: int| 0 <= k < regions@.len() ==> (#[trigger] regions@[k]).wf(),
{
    proof {
        lemma_regions_well_formed(points@, region_size);
    }
    let mut pxls = points;
    let mut rgns: Vec<Region> = Vec::new();
    let ghost mut hist: Seq<Seq<Point>> = Seq::empty();
    let ghost target = cluster_loop(Seq::<Region>::empty(), Seq::<Seq<Point>>::empty(), pxls@, region_size);
    while pxls.len() != 0
        invariant
            hist.len() == rgns@.len(),
            cluster_loop(rgns@, hist, pxls@, region_size) == target,
        decreases pxls@.len(),
    {
        let ghost rgns0 = rgns@;
        let ghost hist0 = hist;
        let ghost pts0 = pxls@;
        let mut i: usize = 0;
        while i < rgns.len()
            invariant
                i <= rgns@.len(),
                rgns@.len() == rgns0.len(),
                hist.len() == rgns@.len(),
                sweep_regions(rgns@, hist, i as int, pxls@) == sweep_regions(rgns0, hist0, 0, pts0),
            decreases rgns@.len() - i,
        {
            let snap = rgns[i];
            let mut r = snap;
            proof {
                assert(pxls@.skip(0) =~= pxls@);
            }
            let mut j: usize = 0;
            while j < pxls.len()
                invariant
                    j <= pxls@.len(),
                    absorb_pass(r, snap, pxls@.skip(j as int)) == absorb_pass(snap, snap, pxls@),
                decreases pxls@.len() - j,
            {
                proof {
                    assert(pxls@.skip(j as int)[0] == pxls@[j as int]);
                    assert(pxls@.skip(j as int).drop_first() =~= pxls@.skip(j as int + 1));
                }
                if pxls[j].is_within(&snap) {
                    r.expand(pxls[j]);
                }
                j += 1;
            }
            proof {
                assert(pxls@.skip(pxls@.len() as int) =~= Seq::<Point>::empty());
                assert(r == absorb_pass(snap, snap, pxls@));
            }
            let ghost pts_before = pxls@;
            let mut kept: Vec<Point> = Vec::new();
            proof {
                reveal(Seq::filter);
            }
            let mut j: usize = 0;
            while j < pxls.len()
                invariant
                    j <= pxls@.len(),
                    pxls@ == pts_before,
                    kept@ == pxls@.subrange(0, j as int).filter(|p: Point| !spec_is_within(p, r)),
                decreases pxls@.len() - j,
            {
                proof {
                    reveal(Seq::filter);
                    assert(pxls@.subrange(0, j as int + 1).drop_last() =~= pxls@.subrange(
                        0,
                        j as int,
                    ));
                    assert(pxls@.subrange(0, j as int + 1).last() == pxls@[j as int]);
                }
                if !pxls[j].is_within(&r) {
                    kept.push(pxls[j]);
                }
                j += 1;
            }
            proof {
                assert(pxls@.subrange(0, pxls@.len() as int) =~= pxls@);
                assert(kept@ == pxls@.filter(|p: Point| !spec_is_within(p, r)));
            }
            rgns[i] = r;
            proof {
                let absorbed = pts_before.filter(|p: Point| spec_is_within(p, r));
                hist = hist.update(i as int, hist[i as int] + absorbed);
            }
            pxls = kept;
            i += 1;
        }
        proof {
            lemma_sweep_regions_len(rgns0, hist0, 0, pts0);
        }
        if let Some(p) = pxls.pop() {
            let seeded = Region::new(&p, &p, region_size);
            rgns.push(seeded);
            proof {
                hist = hist.push(seq![p]);
            }
        }
    }
    rgns
}

/// The multiset of all points in all histories.
pub open spec fn hist_sum(hists: Seq<Seq<Point>>) -> Multiset<Point>
    decreases hists.len(),
{
    if hists.len() == 0 {
        Multiset::empty()
    } else {
        hist_sum(hists.drop_last()).add(hists.last().to_multiset())
    }
}

/// Splitting a list by a predicate splits its multiset.
proof fn lemma_filter_partition_multiset(pts: Seq<Point>, pred: spec_fn(Point) -> bool)
    ensures
        pts.filter(pred).to_multiset().add(
            pts.filter(|p: Point| !pred(p)).to_multiset(),
        ) =~= pts.to_multiset(),
    decreases pts.len(),
{
    broadcast use group_multiset_axioms, group_to_multiset_ensures;

    reveal(Seq::filter);
    if pts.len() == 0 {
    } else {
        let dl = pts.drop_last();
        lemma_filter_partition_multiset(dl, pred);
        assert(pts =~= dl.push(pts.last()));
    }
}

/// Appending to one history adds exactly the appended points to the sum.
proof fn lemma_hist_sum_update(hists: Seq<Seq<Point>>, i: int, extra: Seq<Point>)
    requires
        0 <= i < hists.len(),
    ensures
        hist_sum(hists.update(i, hists[i] + extra)) =~= hist_sum(hists).add(extra.to_multiset()),
    decreases hists.len(),
{
    broadcast use group_multiset_axioms, group_to_multiset_ensures;

    let u = hists.update(i, hists[i] + extra);
    if i == hists.len() - 1 {
        assert(u.drop_last() =~= hists.drop_last());
        assert(u.last() == hists[i] + extra);
        lemma_to_multiset_concat(hists[i], extra);
    } else {
        assert(u.drop_last() =~= hists.drop_last().update(i, hists[i] + extra));
        assert(hists.drop_last()[i] == hists[i]);
        assert(u.last() == hists.last());
        lemma_hist_sum_update(hists.drop_last(), i, extra);
    }
}

/// The multiset of a concatenation is the sum of the parts' multisets.
proof fn lemma_to_multiset_concat(a: Seq<Point>, b: Seq<Point>)
    ensures
        (a + b).to_multiset() =~= a.to_multiset().add(b.to_multiset()),
    decreases b.len(),
{
    broadcast use group_multiset_axioms, group_to_multiset_ensures;

    if b.len() == 0 {
        assert(a + b =~= a);
    } else {
        lemma_to_multiset_concat(a, b.drop_last());
        assert(a + b =~= (a + b.drop_last()).push(b.last()));
        assert(b =~= b.drop_last().push(b.last()));
    }
}

/// Conservation across one full sweep: what leaves the pending list lands in
/// the swept regions' histories, point for point.
proof fn lemma_sweep_conservation(
    rgns: Seq<Region>,
    hist: Seq<Seq<Point>>,
    i: int,
    pts: Seq<Point>,
)
    requires
        hist.len() == rgns.len(),
    ensures
        ({
            let out = sweep_regions(rgns, hist, i, pts);
            &&& out.0.len() == rgns.len()
            &&& out.1.len() == hist.len()
            &&& hist_sum(out.1).add(out.2.to_multiset()) =~= hist_sum(hist).add(pts.to_multiset())
            &&& forall|k: int|
                0 <= k < hist.len() ==> (#[trigger] out.1[k]).len() >= hist[k].len()
        }),
    decreases rgns.len() - i,
{
    broadcast use group_multiset_axioms, group_to_multiset_ensures;

    if 0 <= i < rgns.len() {
        let step = sweep_step(rgns[i], pts);
        let within = |p: Point| spec_is_within(p, step.0);
        lemma_filter_partition_multiset(pts, within);
        assert(pts.filter(|p: Point| !within(p)) =~= step.1) by {
            reveal(Seq::filter);
            lemma_filter_congruence(pts, |p: Point| !within(p), |p: Point| !spec_is_within(p, step.0));
        }
        lemma_hist_sum_update(hist, i, step.2);
        lemma_sweep_conservation(rgns.update(i, step.0), hist.update(i, hist[i] + step.2), i + 1, step.1);
    }
}

/// Two pointwise-equal predicates filter a list to the same result.
proof fn lemma_filter_congruence(pts: Seq<Point>, p1: spec_fn(Point) -> bool, p2: spec_fn(Point) -> bool)
    requires
        forall|p: Point| #[trigger] p1(p) == p2(p),
    ensures
        pts.filter(p1) =~= pts.filter(p2),
    decreases pts.len(),
{
    reveal(Seq::filter);
    if pts.len() > 0 {
        lemma_filter_congruence(pts.drop_last(), p1, p2);
    }
}

/// Conservation across the whole clustering loop.
proof fn lemma_cluster_loop_conservation(
    rgns: Seq<Region>,
    hist: Seq<Seq<Point>>,
    pts: Seq<Point>,
    rs: u32,
)
    requires
        hist.len() == rgns.len(),
        forall|k: int| 0 <= k < hist.len() ==> (#[trigger] hist[k]).len() >= 1,
    ensures
        ({
            let out = cluster_loop(rgns, hist, pts, rs);
            &&& out.1.len() == out.0.len()
            &&& hist_sum(out.1) =~= hist_sum(hist).add(pts.to_multiset())
            &&& forall|k: int| 0 <= k < out.1.len() ==> (#[trigger] out.1[k]).len() >= 1
        }),
    decreases pts.len(),
{
    broadcast use group_multiset_axioms, group_to_multiset_ensures;

    if pts.len() == 0 {
    } else {
        let swept = sweep_regions(rgns, hist, 0, pts);
        lemma_sweep_conservation(rgns, hist, 0, pts);
        if swept.2.len() == 0 {
        } else {
            let seed = swept.2.last();
            let rgns2 = swept.0.push(spec_new(seed, seed, rs));
            let hist2 = swept.1.push(seq![seed]);
            let pts2 = swept.2.drop_last();
            assert(hist_sum(hist2) =~= hist_sum(swept.1).add(seq![seed].to_multiset())) by {
                assert(hist2.drop_last() =~= swept.1);
            }
            assert(seq![seed] =~= Seq::<Point>::empty().push(seed));
            assert(swept.2 =~= pts2.push(seed));
            lemma_sweep_regions_len(rgns, hist, 0, pts);
            lemma_cluster_loop_conservation(rgns2, hist2, pts2, rs);
        }
    }
}

/// An absorption pass keeps the region well formed.
proof fn lemma_absorb_pass_wf(r: Region, snap: Region, pts: Seq<Point>)
    requires
        r.wf(),
    ensures
        absorb_pass(r, snap, pts).wf(),
    decreases pts.len(),
{
    if pts.len() > 0 {
        let r1 = if spec_is_within(pts[0], snap) {
            spec_glue(r, pts[0])
        } else {
            r
        };
        if spec_is_within(pts[0], snap) {
            lemma_glue_preserves_wf(r, pts[0]);
        }
        lemma_absorb_pass_wf(r1, snap, pts.drop_first());
    }
}

/// A sweep keeps every region well formed.
proof fn lemma_sweep_regions_wf(rgns: Seq<Region>, hist: Seq<Seq<Point>>, i: int, pts: Seq<Point>)
    requires
        forall|k: int| 0 <= k < rgns.len() ==> (#[trigger] rgns[k]).wf(),
    ensures
        sweep_regions(rgns, hist, i, pts).0.len() == rgns.len(),
        forall|k: int|
            0 <= k < rgns.len() ==> (#[trigger] sweep_regions(rgns, hist, i, pts).0[k]).wf(),
    decreases rgns.len() - i,
{
    if 0 <= i < rgns.len() {
        let step = sweep_step(rgns[i], pts);
        lemma_absorb_pass_wf(rgns[i], rgns[i], pts);
        lemma_sweep_regions_wf(rgns.update(i, step.0), hist.update(i, hist[i] + step.2), i + 1, step.1);
    }
}

/// The clustering loop keeps every region well formed.
proof fn lemma_cluster_loop_wf(rgns: Seq<Region>, hist: Seq<Seq<Point>>, pts: Seq<Point>, rs: u32)
    requires
        forall|k: int| 0 <= k < rgns.len() ==> (#[trigger] rgns[k]).wf(),
    ensures
        forall|k: int|
            0 <= k < cluster_loop(rgns, hist, pts, rs).0.len() ==> (#[trigger] cluster_loop(
                rgns,
                hist,
                pts,
                rs,
            ).0[k]).wf(),
    decreases pts.len(),
{
    let out = cluster_loop(rgns, hist, pts, rs);
    if pts.len() == 0 {
        assert forall|k: int| 0 <= k < out.0.len() implies (#[trigger] out.0[k]).wf() by {
            assert(out.0[k] == rgns[k]);
        }
    } else {
        let swept = sweep_regions(rgns, hist, 0, pts);
        lemma_sweep_regions_wf(rgns, hist, 0, pts);
        if swept.2.len() == 0 {
            assert forall|k: int| 0 <= k < out.0.len() implies (#[trigger] out.0[k]).wf() by {
                assert(out.0[k] == swept.0[k]);
            }
        } else {
            let seed = swept.2.last();
            let rgns2 = swept.0.push(spec_new(seed, seed, rs));
            assert(spec_new(seed, seed, rs).wf());
            assert forall|k: int| 0 <= k < rgns2.len() implies (#[trigger] rgns2[k]).wf() by {
                if k < swept.0.len() {
                    assert(rgns2[k] == swept.0[k]);
                }
            }
            lemma_sweep_regions_len(rgns, hist, 0, pts);
            lemma_cluster_loop_wf(rgns2, swept.1.push(seq![seed]), swept.2.drop_last(), rs);
            let rec = cluster_loop(rgns2, swept.1.push(seq![seed]), swept.2.drop_last(), rs);
            assert forall|k: int| 0 <= k < out.0.len() implies (#[trigger] out.0[k]).wf() by {
                assert(out.0[k] == rec.0[k]);
            }
        }
    }
}

/// Law: the bounding-box invariant holds of every region the clusterer
/// returns — the box corners are ordered and the centroid coordinates sit at
/// the box midpoint, recomputed after every merge.
pub proof fn lemma_regions_well_formed(pts: Seq<Point>, rs: u32)
    ensures
        forall|k: int|
            0 <= k < spec_cluster(pts, rs).len() ==> (#[trigger] spec_cluster(pts, rs)[k]).wf(),
{
    lemma_cluster_loop_wf(Seq::empty(), Seq::empty(), pts, rs);
}

/// Law: conservation of candidates. Every candidate point lands in exactly one
/// final region's absorption history — none is dropped and none is consumed by
/// two regions. Counted with multiplicity, the histories together hold exactly
/// the input candidate list; there is one history per region, and every
/// history holds at least the region's seed.
pub proof fn lemma_point_conservation(pts: Seq<Point>, rs: u32)
    ensures
        spec_histories(pts, rs).len() == spec_cluster(pts, rs).len(),
        hist_sum(spec_histories(pts, rs)) =~= pts.to_multiset(),
        forall|k: int|
            0 <= k < spec_histories(pts, rs).len() ==> (#[trigger] spec_histories(
                pts,
                rs,
            )[k]).len() >= 1,
{
    broadcast use group_multiset_axioms, group_to_multiset_ensures;

    lemma_cluster_loop_conservation(Seq::empty(), Seq::empty(), pts, rs);
}

} // verus!
