//! Two-dimensional rectangle bin packing with maximal free regions.
//!
//! Containers are tracked as sets of free rectangular regions. The
//! `max_rects` engine repeatedly places the best-fitting item, then splits
//! and prunes the free regions so that no free region overlaps a placed item
//! and none lies strictly inside another.

pub mod bucket;
pub mod max_rects;
pub mod packing_box;

use crate::bucket::Bucket;
use crate::packing_box::PackingBox;
use vstd::prelude::*;

verus! {

/// Sum of the items' areas.
pub open spec fn items_area(s: Seq<PackingBox>) -> int
    decreases s.len(),
{
    if s.len() == 0 {
        0
    } else {
        items_area(s.drop_last()) + s.last().area_spec()
    }
}

/// Sum of the regions' areas.
pub open spec fn regions_area(s: Seq<Bucket>) -> int
    decreases s.len(),
{
    if s.len() == 0 {
        0
    } else {
        regions_area(s.drop_last()) + s.last().area_spec()
    }
}

/// The packed share as a fraction: placed area over container area, or
/// zero when the containers have no area.
pub open spec fn packed_ratio_spec(placed: Seq<PackingBox>, bins: Seq<Bucket>) -> (int, int) {
    if regions_area(bins) == 0 {
        (0, 1)
    } else {
        (items_area(placed), regions_area(bins))
    }
}

/// The packed share as `(numerator, denominator)`; the packed percentage is
/// `100 * numerator / denominator`.
pub fn packed_ratio(placed_boxes: &Vec<PackingBox>, bins: &Vec<Bucket>) -> (r: (i128, i128))
    ensures
        (r.0 as int, r.1 as int) == packed_ratio_spec(placed_boxes@, bins@),
{
    let mut total_bin_area: i128 = 0;
    let n = bins.len();
    for k in 0..n
        invariant
            n == bins@.len(),
            total_bin_area == regions_area(bins@.take(k as int)),
            -(k as int) * 0x4000_0000_0000_0000 <= total_bin_area <= (k as int) * 0x4000_0000_0000_0000,
    {
        let w = bins[k].width as i128;
        let h = bins[k].height as i128;
        assert(-0x4000_0000_0000_0000 <= w * h <= 0x4000_0000_0000_0000) by (nonlinear_arith)
            requires
                -0x8000_0000 <= w <= 0x8000_0000,
                -0x8000_0000 <= h <= 0x8000_0000,
        ;
        assert(bins@.take(k + 1).drop_last() =~= bins@.take(k as int));
        total_bin_area = total_bin_area + w * h;
    }
    assert(bins@.take(n as int) =~= bins@);
    let mut total_placed_area: i128 = 0;
    let m = placed_boxes.len();
    for k in 0..m
        invariant
            m == placed_boxes@.len(),
            total_placed_area == items_area(placed_boxes@.take(k as int)),
            -(k as int) * 0x4000_0000_0000_0000 <= total_placed_area <= (k as int) * 0x4000_0000_0000_0000,
    {
        let w = placed_boxes[k].width as i128;
        let h = placed_boxes[k].height as i128;
        assert(-0x4000_0000_0000_0000 <= w * h <= 0x4000_0000_0000_0000) by (nonlinear_arith)
            requires
                -0x8000_0000 <= w <= 0x8000_0000,
                -0x8000_0000 <= h <= 0x8000_0000,
        ;
        assert(placed_boxes@.take(k + 1).drop_last() =~= placed_boxes@.take(k as int));
        total_placed_area = total_placed_area + w * h;
    }
    assert(placed_boxes@.take(m as int) =~= placed_boxes@);
    if total_bin_area == 0 {
        return (0, 1);
    }
    (total_placed_area, total_bin_area)
}

/// Nothing placed, or no containers, gives a packed share of zero.
pub proof fn lemma_packed_ratio_zero(placed: Seq<PackingBox>, bins: Seq<Bucket>)
    ensures
        packed_ratio_spec(Seq::empty(), bins).0 == 0,
        packed_ratio_spec(placed, Seq::empty()).0 == 0,
{
}

/// Placed items whose areas add up to the containers' nonzero area give a
/// packed share of one, that is one hundred percent.
pub proof fn lemma_packed_ratio_full(placed: Seq<PackingBox>, bins: Seq<Bucket>)
    requires
        items_area(placed) == regions_area(bins),
        regions_area(bins) != 0,
    ensures
        packed_ratio_spec(placed, bins).0 == packed_ratio_spec(placed, bins).1,
{
}

} // verus!
