//! The packing engine: best-fit search over items and free regions,
//! placement, splitting of the free regions around the placed item and
//! pruning of regions that lie strictly inside others.

use crate::bucket::Bucket;
use crate::packing_box::PackingBox;
use rayon::iter::{IndexedParallelIterator, IntoParallelRefIterator, ParallelIterator};
use vstd::prelude::*;

verus! {

/// Every region in the sequence is usable (positive size, edges in range).
pub open spec fn all_wf(bins: Seq<Bucket>) -> bool {
    forall|k: int| 0 <= k < bins.len() ==> (#[trigger] bins[k]).wf()
}

/// The item has positive dimensions no larger than the region's.
pub open spec fn fits(b: PackingBox, r: Bucket) -> bool {
    0 < b.width <= r.width && 0 < b.height <= r.height
}

/// The smaller of the two leftover dimensions; smaller is tighter.
pub open spec fn fit_score(b: PackingBox, r: Bucket) -> int {
    let dw = r.width - b.width;
    let dh = r.height - b.height;
    if dw <= dh {
        dw
    } else {
        dh
    }
}

/// Region `j` is the tightest fit for `b` among the first `n` regions,
/// the lowest index winning a tie.
pub open spec fn is_best_region_within(b: PackingBox, bins: Seq<Bucket>, n: int, j: int) -> bool {
    &&& 0 <= j < n
    &&& fits(b, bins[j])
    &&& forall|k: int|
        0 <= k < n && fits(b, #[trigger] bins[k]) ==> fit_score(b, bins[j]) < fit_score(b, bins[k])
            || (fit_score(b, bins[j]) == fit_score(b, bins[k]) && j <= k)
}

/// What the search over the first `n` regions reports for `b`: nothing when
/// none of them fits, else the tightest one and its score.
pub open spec fn best_fit_within(
    b: PackingBox,
    bins: Seq<Bucket>,
    n: int,
    r: Option<(i32, usize)>,
) -> bool {
    match r {
        None => forall|k: int| 0 <= k < n ==> !fits(b, #[trigger] bins[k]),
        Some((s, j)) => is_best_region_within(b, bins, n, j as int) && s == fit_score(
            b,
            bins[j as int],
        ),
    }
}

/// What the search over all regions reports for `b`.
pub open spec fn best_fit_result(b: PackingBox, bins: Seq<Bucket>, r: Option<(i32, usize)>) -> bool {
    best_fit_within(b, bins, bins.len() as int, r)
}

/// Pair `(i, j)` comes no later than `(i2, j2)`: by score, then by region
/// index, then by item index.
pub open spec fn pair_le(
    boxes: Seq<PackingBox>,
    bins: Seq<Bucket>,
    i: int,
    j: int,
    i2: int,
    j2: int,
) -> bool {
    let s = fit_score(boxes[i], bins[j]);
    let s2 = fit_score(boxes[i2], bins[j2]);
    s < s2 || (s == s2 && (j < j2 || (j == j2 && i <= i2)))
}

/// Item `i` in region `j` is the pair that the search picks among the
/// first `m` items.
pub open spec fn is_best_pair_within(
    boxes: Seq<PackingBox>,
    bins: Seq<Bucket>,
    m: int,
    i: int,
    j: int,
) -> bool {
    &&& 0 <= i < m
    &&& 0 <= j < bins.len()
    &&& fits(boxes[i], bins[j])
    &&& forall|i2: int, j2: int|
        0 <= i2 < m && 0 <= j2 < bins.len() && #[trigger] fits(boxes[i2], bins[j2]) ==> pair_le(
            boxes,
            bins,
            i,
            j,
            i2,
            j2,
        )
}

/// Item `i` in region `j` is the pair that the search picks.
pub open spec fn is_best_pair(boxes: Seq<PackingBox>, bins: Seq<Bucket>, i: int, j: int) -> bool {
    is_best_pair_within(boxes, bins, boxes.len() as int, i, j)
}

/// Some item fits some region.
pub open spec fn some_fit(boxes: Seq<PackingBox>, bins: Seq<Bucket>) -> bool {
    exists|i: int, j: int|
        0 <= i < boxes.len() && 0 <= j < bins.len() && #[trigger] fits(boxes[i], bins[j])
}

/// The item as placed in region `r`: flush with its left edge and its
/// bottom edge, in its container.
pub open spec fn placed_in(b: PackingBox, r: Bucket) -> PackingBox {
    PackingBox {
        width: b.width,
        height: b.height,
        originx: Some(r.originx),
        originy: Some((r.originy + r.height - b.height) as i32),
        bucketid: Some(r.bucketid),
    }
}

/// The region has positive area (both dimensions positive).
pub open spec fn has_area(r: Bucket) -> bool {
    r.width > 0 && r.height > 0
}

/// The region alone if it has positive area, else nothing.
pub open spec fn keep_if_area(r: Bucket) -> Seq<Bucket> {
    if has_area(r) {
        seq![r]
    } else {
        seq![]
    }
}

/// The part of `r` to the right of an item of width `b.width` placed in it.
pub open spec fn side_part(b: PackingBox, r: Bucket) -> Bucket {
    Bucket {
        width: (r.width - b.width) as i32,
        height: r.height,
        originx: (r.originx + b.width) as i32,
        originy: r.originy,
        bucketid: r.bucketid,
    }
}

/// The part of `r` above an item of height `b.height` placed in it.
pub open spec fn top_part(b: PackingBox, r: Bucket) -> Bucket {
    Bucket {
        width: r.width,
        height: (r.height - b.height) as i32,
        originx: r.originx,
        originy: r.originy,
        bucketid: r.bucketid,
    }
}

/// The regions left over in `r` after `b` is placed in it.
pub open spec fn leftovers(b: PackingBox, r: Bucket) -> Seq<Bucket> {
    keep_if_area(side_part(b, r)) + keep_if_area(top_part(b, r))
}

/// The parts of `r` left of, above, right of and below a placed item,
/// each clipped to `r`, those with positive area.
pub open spec fn pieces(r: Bucket, p: PackingBox) -> Seq<Bucket> {
    let left = Bucket {
        width: (p.left() - r.left()) as i32,
        height: r.height,
        originx: r.originx,
        originy: r.originy,
        bucketid: r.bucketid,
    };
    let above = Bucket {
        width: r.width,
        height: (p.top() - r.top()) as i32,
        originx: r.originx,
        originy: r.originy,
        bucketid: r.bucketid,
    };
    let right = Bucket {
        width: (r.right() - p.right()) as i32,
        height: r.height,
        originx: p.right() as i32,
        originy: r.originy,
        bucketid: r.bucketid,
    };
    let below = Bucket {
        width: r.width,
        height: (r.bottom() - p.bottom()) as i32,
        originx: r.originx,
        originy: p.bottom() as i32,
        bucketid: r.bucketid,
    };
    keep_if_area(left) + keep_if_area(above) + keep_if_area(right) + keep_if_area(below)
}

/// The pieces of every region in `bins` that the placed item overlaps, in order.
pub open spec fn pieces_of(bins: Seq<Bucket>, p: PackingBox) -> Seq<Bucket>
    decreases bins.len(),
{
    if bins.len() == 0 {
        seq![]
    } else {
        pieces_of(bins.drop_last(), p) + if p.overlaps_region(bins.last()) {
            pieces(bins.last(), p)
        } else {
            seq![]
        }
    }
}

/// The free regions after the item is placed: those it does not overlap,
/// then the pieces of those it does.
pub open spec fn carve(bins: Seq<Bucket>, p: PackingBox) -> Seq<Bucket> {
    bins.filter(clear_of(p)) + pieces_of(bins, p)
}

/// Holds of the regions that the placed item does not overlap.
pub open spec fn clear_of(p: PackingBox) -> spec_fn(Bucket) -> bool {
    |r: Bucket| !p.overlaps_region(r)
}

/// `a` contains `b` and differs from it.
pub open spec fn strictly_encloses(a: Bucket, b: Bucket) -> bool {
    a != b && a.encloses(b)
}

/// Some region of `bins` strictly contains `r`.
pub open spec fn dominated(bins: Seq<Bucket>, r: Bucket) -> bool {
    exists|q: int| 0 <= q < bins.len() && strictly_encloses(#[trigger] bins[q], r)
}

/// The regions that no other region of `bins` strictly contains, in order.
pub open spec fn prune(bins: Seq<Bucket>) -> Seq<Bucket> {
    bins.filter(maximal_in(bins))
}

/// Holds of the regions that no region of `bins` strictly contains.
pub open spec fn maximal_in(bins: Seq<Bucket>) -> spec_fn(Bucket) -> bool {
    |r: Bucket| !dominated(bins, r)
}

/// The free regions after item `i` is placed in region `j`: the region is
/// replaced by its leftovers, every region the item overlaps is cut around
/// it, and regions strictly inside others are dropped.
pub open spec fn next_bins(boxes: Seq<PackingBox>, bins: Seq<Bucket>, i: int, j: int) -> Seq<Bucket> {
    prune(carve(bins.remove(j) + leftovers(boxes[i], bins[j]), placed_in(boxes[i], bins[j])))
}

/// Greedy packing of `boxes` into the free regions `bins`: the items placed,
/// in placement order; the items never placed; the final free regions.
pub open spec fn pack(boxes: Seq<PackingBox>, bins: Seq<Bucket>) -> (Seq<PackingBox>, Seq<PackingBox>, Seq<Bucket>)
    decreases boxes.len(),
{
    if exists|i: int, j: int| is_best_pair(boxes, bins, i, j) {
        let (i, j) = choose|i: int, j: int| is_best_pair(boxes, bins, i, j);
        let rest = pack(boxes.remove(i), next_bins(boxes, bins, i, j));
        (seq![placed_in(boxes[i], bins[j])] + rest.0, rest.1, rest.2)
    } else {
        (seq![], boxes, bins)
    }
}

/// Some region of `bins` contains `c`.
pub open spec fn covered(bins: Seq<Bucket>, c: Bucket) -> bool {
    exists|q: int| 0 <= q < bins.len() && (#[trigger] bins[q]).encloses(c)
}

/// No placed item overlaps any of the regions.
pub open spec fn regions_clear(bins: Seq<Bucket>, placed: Seq<PackingBox>) -> bool {
    forall|k: int, m: int|
        0 <= k < bins.len() && 0 <= m < placed.len() ==> !(#[trigger] placed[m]).overlaps_region(
            #[trigger] bins[k],
        )
}

/// No two placed items overlap.
pub open spec fn items_disjoint(placed: Seq<PackingBox>) -> bool {
    forall|a: int, b: int|
        0 <= a < placed.len() && 0 <= b < placed.len() && a != b ==> !(#[trigger] placed[a]).overlaps_item(
            #[trigger] placed[b],
        )
}

/// No region lies strictly inside another.
pub open spec fn no_strict_nesting(bins: Seq<Bucket>) -> bool {
    forall|a: int, b: int|
        0 <= a < bins.len() && 0 <= b < bins.len() ==> !strictly_encloses(
            #[trigger] bins[a],
            #[trigger] bins[b],
        )
}

/// The search picks at most one pair.
proof fn lemma_best_pair_unique(boxes: Seq<PackingBox>, bins: Seq<Bucket>, i: int, j: int, i2: int, j2: int)
    requires
        is_best_pair(boxes, bins, i, j),
        is_best_pair(boxes, bins, i2, j2),
    ensures
        i == i2 && j == j2,
{
    assert(fits(boxes[i2], bins[j2]));
    assert(fits(boxes[i], bins[j]));
}

/// Each piece of a region around an item that overlaps it is usable, lies
/// within the region and is clear of the item.
proof fn lemma_pieces(r: Bucket, p: PackingBox)
    requires
        r.wf(),
        p.edges_fit(),
        p.width > 0,
        p.height > 0,
        p.overlaps_region(r),
    ensures
        forall|k: int|
            0 <= k < pieces(r, p).len() ==> {
                let c = #[trigger] pieces(r, p)[k];
                c.wf() && r.encloses(c) && !p.overlaps_region(c)
            },
{
}

/// Every region of `pieces_of` is usable, inside a region of `bins` and
/// clear of the item.
proof fn lemma_pieces_of(bins: Seq<Bucket>, p: PackingBox)
    requires
        all_wf(bins),
        p.edges_fit(),
        p.width > 0,
        p.height > 0,
    ensures
        forall|k: int|
            0 <= k < pieces_of(bins, p).len() ==> {
                let c = #[trigger] pieces_of(bins, p)[k];
                c.wf() && covered(bins, c) && !p.overlaps_region(c)
            },
    decreases bins.len(),
{
    if bins.len() > 0 {
        let pre = bins.drop_last();
        lemma_pieces_of(pre, p);
        let tail = if p.overlaps_region(bins.last()) {
            pieces(bins.last(), p)
        } else {
            seq![]
        };
        if p.overlaps_region(bins.last()) {
            lemma_pieces(bins.last(), p);
        }
        assert forall|k: int| 0 <= k < pieces_of(bins, p).len() implies {
            let c = #[trigger] pieces_of(bins, p)[k];
            c.wf() && covered(bins, c) && !p.overlaps_region(c)
        } by {
            let c = pieces_of(bins, p)[k];
            if k < pieces_of(pre, p).len() {
                assert(c == pieces_of(pre, p)[k]);
                let q = choose|q: int| 0 <= q < pre.len() && (#[trigger] pre[q]).encloses(c);
                assert(bins[q] == pre[q]);
            } else {
                assert(c == tail[k - pieces_of(pre, p).len()]);
                assert(bins[bins.len() - 1] == bins.last());
            }
        }
    }
}

/// Every region of `carve` is usable, inside a region of `bins` and clear
/// of the item.
proof fn lemma_carve(bins: Seq<Bucket>, p: PackingBox)
    requires
        all_wf(bins),
        p.edges_fit(),
        p.width > 0,
        p.height > 0,
    ensures
        forall|k: int|
            0 <= k < carve(bins, p).len() ==> {
                let c = #[trigger] carve(bins, p)[k];
                c.wf() && covered(bins, c) && !p.overlaps_region(c)
            },
{
    let kept = bins.filter(clear_of(p));
    broadcast use vstd::seq_lib::group_filter_ensures, Seq::lemma_filter_contains_rev;
    lemma_pieces_of(bins, p);
    assert forall|k: int| 0 <= k < carve(bins, p).len() implies {
        let c = #[trigger] carve(bins, p)[k];
        c.wf() && covered(bins, c) && !p.overlaps_region(c)
    } by {
        let c = carve(bins, p)[k];
        if k < kept.len() {
            assert(c == kept[k]);
            assert(kept.contains(c));
            assert(bins.contains(c));
            let q = choose|q: int| 0 <= q < bins.len() && bins[q] == c;
            assert(bins[q].encloses(c));
        } else {
            assert(c == pieces_of(bins, p)[k - kept.len()]);
        }
    }
}

/// Pruning keeps a subsequence and leaves no region strictly inside another.
proof fn lemma_prune(bins: Seq<Bucket>)
    ensures
        forall|k: int|
            0 <= k < prune(bins).len() ==> bins.contains(#[trigger] prune(bins)[k]),
        no_strict_nesting(prune(bins)),
{
    broadcast use vstd::seq_lib::group_filter_ensures, Seq::lemma_filter_contains_rev;

    let out = prune(bins);
    assert forall|k: int| 0 <= k < out.len() implies bins.contains(#[trigger] out[k]) by {
        assert(out.contains(out[k]));
    }
    assert forall|a: int, b: int| 0 <= a < out.len() && 0 <= b < out.len() implies !strictly_encloses(
        #[trigger] out[a],
        #[trigger] out[b],
    ) by {
        assert(maximal_in(bins)(out[b]));
        assert(bins.contains(out[a]));
        let q = choose|q: int| 0 <= q < bins.len() && bins[q] == out[a];
        if strictly_encloses(out[a], out[b]) {
            assert(strictly_encloses(bins[q], out[b]));
        }
    }
}

/// One placement keeps every region usable, inside the regions before it
/// and clear of the placed item, and leaves no region strictly inside
/// another; the placed item lies within the region it was placed in.
proof fn lemma_step(boxes: Seq<PackingBox>, bins: Seq<Bucket>, i: int, j: int)
    requires
        all_wf(bins),
        is_best_pair(boxes, bins, i, j),
    ensures
        ({
            let item = placed_in(boxes[i], bins[j]);
            let next = next_bins(boxes, bins, i, j);
            &&& item.edges_fit()
            &&& item.width > 0
            &&& item.height > 0
            &&& item.is_placed()
            &&& item.bucketid == Some(bins[j].bucketid)
            &&& bins[j].left() <= item.left() && item.right() <= bins[j].right()
            &&& bins[j].top() <= item.top() && item.bottom() <= bins[j].bottom()
            &&& all_wf(next)
            &&& no_strict_nesting(next)
            &&& forall|k: int|
                0 <= k < next.len() ==> covered(bins, #[trigger] next[k]) && !item.overlaps_region(
                    next[k],
                )
        }),
{
    let item = placed_in(boxes[i], bins[j]);
    let r = bins[j];
    let mid = bins.remove(j) + leftovers(boxes[i], r);
    assert(r.wf());
    assert forall|k: int| 0 <= k < mid.len() implies (#[trigger] mid[k]).wf() && covered(bins, mid[k]) by {
        if k < bins.len() - 1 {
            if k < j {
                assert(mid[k] == bins[k]);
                assert(bins[k].encloses(mid[k]));
            } else {
                assert(mid[k] == bins[k + 1]);
                assert(bins[k + 1].encloses(mid[k]));
            }
        } else {
            assert(r.encloses(mid[k]));
        }
    }
    lemma_carve(mid, item);
    let carved = carve(mid, item);
    lemma_prune(carved);
    let next = prune(carved);
    assert forall|k: int| 0 <= k < next.len() implies (#[trigger] next[k]).wf() && covered(bins, next[k])
        && !item.overlaps_region(next[k]) by {
        assert(carved.contains(next[k]));
        let q = choose|q: int| 0 <= q < carved.len() && carved[q] == next[k];
        assert(covered(mid, carved[q]));
        let q2 = choose|q2: int| 0 <= q2 < mid.len() && (#[trigger] mid[q2]).encloses(carved[q]);
        assert(covered(bins, mid[q2]));
        let q3 = choose|q3: int| 0 <= q3 < bins.len() && (#[trigger] bins[q3]).encloses(mid[q2]);
        assert(bins[q3].encloses(next[k]));
    }
}

/// Packing from free regions that no earlier item overlaps keeps every
/// region usable, keeps the regions clear of all items and places no item
/// over another.
proof fn lemma_pack_sound(boxes: Seq<PackingBox>, bins: Seq<Bucket>, prior: Seq<PackingBox>)
    requires
        all_wf(bins),
        regions_clear(bins, prior),
        items_disjoint(prior),
    ensures
        all_wf(pack(boxes, bins).2),
        regions_clear(pack(boxes, bins).2, prior + pack(boxes, bins).0),
        items_disjoint(prior + pack(boxes, bins).0),
    decreases boxes.len(),
{
    if exists|i: int, j: int| is_best_pair(boxes, bins, i, j) {
        let (i, j) = choose|i: int, j: int| is_best_pair(boxes, bins, i, j);
        let item = placed_in(boxes[i], bins[j]);
        let next = next_bins(boxes, bins, i, j);
        lemma_step(boxes, bins, i, j);
        let prior2 = prior.push(item);
        assert forall|m: int| 0 <= m < prior.len() implies !(#[trigger] prior[m]).overlaps_item(item)
            && !item.overlaps_item(prior[m]) by {
            assert(!prior[m].overlaps_region(bins[j]));
        }
        assert(items_disjoint(prior2)) by {
            assert forall|a: int, b: int|
                0 <= a < prior2.len() && 0 <= b < prior2.len() && a != b implies !(
                #[trigger] prior2[a]).overlaps_item(#[trigger] prior2[b]) by {
                if a < prior.len() && b < prior.len() {
                    assert(prior2[a] == prior[a] && prior2[b] == prior[b]);
                } else if a < prior.len() {
                    assert(prior2[a] == prior[a] && prior2[b] == item);
                } else {
                    assert(prior2[a] == item && prior2[b] == prior[b]);
                }
            }
        }
        assert(regions_clear(next, prior2)) by {
            assert forall|k: int, m: int| 0 <= k < next.len() && 0 <= m < prior2.len() implies !(
            #[trigger] prior2[m]).overlaps_region(#[trigger] next[k]) by {
                assert(covered(bins, next[k]));
                if m < prior.len() {
                    assert(prior2[m] == prior[m]);
                    let q = choose|q: int| 0 <= q < bins.len() && (#[trigger] bins[q]).encloses(next[k]);
                    assert(!prior[m].overlaps_region(bins[q]));
                }
            }
        }
        lemma_pack_sound(boxes.remove(i), next, prior2);
        let rest = pack(boxes.remove(i), next);
        assert(prior2 + rest.0 =~= prior + (seq![item] + rest.0));
    } else {
        assert(prior + seq![] =~= prior);
    }
}

/// Every item is either placed or reported unplaced.
proof fn lemma_pack_len(boxes: Seq<PackingBox>, bins: Seq<Bucket>)
    ensures
        pack(boxes, bins).0.len() + pack(boxes, bins).1.len() == boxes.len(),
    decreases boxes.len(),
{
    if exists|i: int, j: int| is_best_pair(boxes, bins, i, j) {
        let (i, j) = choose|i: int, j: int| is_best_pair(boxes, bins, i, j);
        lemma_pack_len(boxes.remove(i), next_bins(boxes, bins, i, j));
    }
}

/// Once an item has been placed, no final region lies strictly inside another.
proof fn lemma_pack_nesting(boxes: Seq<PackingBox>, bins: Seq<Bucket>)
    requires
        all_wf(bins),
    ensures
        pack(boxes, bins).0.len() > 0 || no_strict_nesting(bins) ==> no_strict_nesting(
            pack(boxes, bins).2,
        ),
    decreases boxes.len(),
{
    if exists|i: int, j: int| is_best_pair(boxes, bins, i, j) {
        let (i, j) = choose|i: int, j: int| is_best_pair(boxes, bins, i, j);
        lemma_step(boxes, bins, i, j);
        lemma_pack_nesting(boxes.remove(i), next_bins(boxes, bins, i, j));
    }
}

/// Packing with no items places nothing and leaves the regions as they are.
pub proof fn lemma_pack_no_items(bins: Seq<Bucket>)
    ensures
        pack(seq![], bins) == (Seq::<PackingBox>::empty(), Seq::<PackingBox>::empty(), bins),
{
    assert(!exists|i: int, j: int| is_best_pair(seq![], bins, i, j));
}

/// A packing problem: the items still to place and the free regions of the
/// containers.
pub struct MaxRects {
    pub boxes: Vec<PackingBox>,
    pub bins: Vec<Bucket>,
}

impl MaxRects {
    /// A problem over the given items and free regions.
    pub fn new(boxes: Vec<PackingBox>, bins: Vec<Bucket>) -> (r: Self)
        ensures
            r.boxes@ == boxes@,
            r.bins@ == bins@,
    {
        Self { boxes, bins }
    }

    /// Places items until none fits any free region. Returns the placed
    /// items in placement order, the items never placed and the final free
    /// regions; the problem is left holding the last two.
    pub fn place(&mut self) -> (r: (Vec<PackingBox>, Vec<PackingBox>, Vec<Bucket>))
        requires
            all_wf(old(self).bins@),
        ensures
            (r.0@, r.1@, r.2@) == pack(old(self).boxes@, old(self).bins@),
            final(self).boxes@ == r.1@,
            final(self).bins@ == r.2@,
            r.0@.len() + r.1@.len() == old(self).boxes@.len(),
            items_disjoint(r.0@),
            regions_clear(r.2@, r.0@),
            all_wf(r.2@),
            r.0@.len() > 0 || no_strict_nesting(old(self).bins@) ==> no_strict_nesting(r.2@),
    {
        let ghost boxes0 = self.boxes@;
        let ghost bins0 = self.bins@;
        proof {
            lemma_pack_len(boxes0, bins0);
            lemma_pack_nesting(boxes0, bins0);
            lemma_pack_sound(boxes0, bins0, seq![]);
            assert(seq![] + pack(boxes0, bins0).0 =~= pack(boxes0, bins0).0);
        }
        let ghost done = pack(boxes0, bins0);
        let mut placed: Vec<PackingBox> = Vec::new();
        loop
            invariant
                boxes0 == old(self).boxes@,
                bins0 == old(self).bins@,
                done == pack(boxes0, bins0),
                done.0.len() + done.1.len() == boxes0.len(),
                done.0.len() > 0 || no_strict_nesting(bins0) ==> no_strict_nesting(done.2),
                all_wf(done.2),
                regions_clear(done.2, done.0),
                items_disjoint(done.0),
                all_wf(self.bins@),
                pack(boxes0, bins0) == (placed@ + pack(self.boxes@, self.bins@).0, pack(
                    self.boxes@,
                    self.bins@,
                ).1, pack(self.boxes@, self.bins@).2),
            decreases self.boxes@.len(),
        {
            let ghost boxes1 = self.boxes@;
            let ghost bins1 = self.bins@;
            let scores = best_fits_parallel(&self.boxes, &self.bins);
            match select_pair(&self.boxes, &self.bins, &scores) {
                None => {
                    proof {
                        assert(!exists|i: int, j: int| is_best_pair(boxes1, bins1, i, j));
                        assert(pack(boxes1, bins1) == (Seq::<PackingBox>::empty(), boxes1, bins1));
                        assert(placed@ + Seq::<PackingBox>::empty() =~= placed@);
                    }
                    let unplaced = self.boxes.clone();
                    let free = self.bins.clone();
                    assert(unplaced@ =~= self.boxes@);
                    assert(free@ =~= self.bins@);
                    return (placed, unplaced, free);
                },
                Some((bi, bj)) => {
                    proof {
                        let (i, j) = choose|i: int, j: int| is_best_pair(boxes1, bins1, i, j);
                        lemma_best_pair_unique(boxes1, bins1, i, j, bi as int, bj as int);
                        lemma_step(boxes1, bins1, bi as int, bj as int);
                    }
                    let mut item = self.boxes.remove(bi);
                    let bin = self.bins.remove(bj);
                    item.place(bin.originx, bin.height - item.height + bin.originy, bin.bucketid);
                    let side = Bucket::new(
                        bin.width - item.width,
                        bin.height,
                        bin.originx + item.width,
                        bin.originy,
                        bin.bucketid,
                    );
                    let top = Bucket::new(
                        bin.width,
                        bin.height - item.height,
                        bin.originx,
                        bin.originy,
                        bin.bucketid,
                    );
                    let ghost rest = self.bins@;
                    if side.width > 0 && side.height > 0 {
                        self.bins.push(side);
                    }
                    if top.width > 0 && top.height > 0 {
                        self.bins.push(top);
                    }
                    assert(self.bins@ =~= rest + leftovers(boxes1[bi as int], bins1[bj as int]));
                    let carved = carve_regions(&self.bins, &item);
                    proof {
                        lemma_carve(self.bins@, item);
                    }
                    self.bins = prune_regions(&carved);
                    let ghost placed0 = placed@;
                    placed.push(item);
                    proof {
                        let r1 = pack(self.boxes@, self.bins@);
                        assert(placed@ + r1.0 =~= placed0 + (seq![item] + r1.0));
                    }
                },
            }
        }
    }
}

/// The tightest fit for `item` among `bins`: its score and the region's
/// index, or `None` when no region fits.
pub fn best_fit(item: &PackingBox, bins: &Vec<Bucket>) -> (r: Option<(i32, usize)>)
    ensures
        best_fit_result(*item, bins@, r),
{
    let mut best: Option<(i32, usize)> = None;
    let n = bins.len();
    for j in 0..n
        invariant
            n == bins@.len(),
            best_fit_within(*item, bins@, j as int, best),
    {
        let rect = &bins[j];
        if 0 < item.width && item.width <= rect.width && 0 < item.height && item.height
            <= rect.height {
            let dw = rect.width - item.width;
            let dh = rect.height - item.height;
            let diff = if dw <= dh {
                dw
            } else {
                dh
            };
            match best {
                None => {
                    best = Some((diff, j));
                },
                Some((s, _)) => {
                    if diff < s {
                        best = Some((diff, j));
                    }
                },
            }
        }
    }
    best
}

/// Relies on rayon's `par_iter`, `map` and `collect_into_vec`: `best_fit`
/// runs for every item on the thread pool and the results keep the items'
/// order.
#[verifier::external_body]
fn best_fits_parallel(boxes: &Vec<PackingBox>, bins: &Vec<Bucket>) -> (r: Vec<Option<(i32, usize)>>)
    ensures
        r@.len() == boxes@.len(),
        forall|i: int| 0 <= i < boxes@.len() ==> best_fit_result(boxes@[i], bins@, #[trigger] r@[i]),
{
    let mut r = Vec::new();
    boxes.par_iter().map(|b| best_fit(b, bins)).collect_into_vec(&mut r);
    r
}

/// The pair that the search picks, from the per-item results: the item's
/// index and the region's index, or `None` when nothing fits.
fn select_pair(boxes: &Vec<PackingBox>, bins: &Vec<Bucket>, fits_of: &Vec<Option<(i32, usize)>>) -> (r:
    Option<(usize, usize)>)
    requires
        fits_of@.len() == boxes@.len(),
        forall|i: int|
            0 <= i < boxes@.len() ==> best_fit_result(boxes@[i], bins@, #[trigger] fits_of@[i]),
    ensures
        match r {
            None => !some_fit(boxes@, bins@),
            Some((i, j)) => is_best_pair(boxes@, bins@, i as int, j as int),
        },
{
    let mut best: Option<(i32, usize, usize)> = None;
    let n = fits_of.len();
    for i in 0..n
        invariant
            n == boxes@.len(),
            fits_of@.len() == boxes@.len(),
            forall|i: int|
                0 <= i < boxes@.len() ==> best_fit_result(boxes@[i], bins@, #[trigger] fits_of@[i]),
            match best {
                None => forall|i2: int, j2: int|
                    0 <= i2 < i && 0 <= j2 < bins@.len() ==> !#[trigger] fits(boxes@[i2], bins@[j2]),
                Some((s, bi, bj)) => is_best_pair_within(boxes@, bins@, i as int, bi as int, bj as int)
                    && s == fit_score(boxes@[bi as int], bins@[bj as int]),
            },
    {
        match fits_of[i] {
            None => {},
            Some((s, j)) => {
                let better = match best {
                    None => true,
                    Some((bs, _, bj)) => s < bs || (s == bs && j < bj),
                };
                if better {
                    best = Some((s, i, j));
                }
            },
        }
    }
    match best {
        None => {
            assert(!some_fit(boxes@, bins@));
            None
        },
        Some((_, bi, bj)) => Some((bi, bj)),
    }
}

/// Appends to `out` the pieces of `rect` around the placed item.
fn push_pieces(out: &mut Vec<Bucket>, rect: &Bucket, item: &PackingBox)
    requires
        rect.wf(),
        item.edges_fit(),
        item.width > 0,
        item.height > 0,
        item.overlaps_region(*rect),
    ensures
        final(out)@ == old(out)@ + pieces(*rect, *item),
{
    let (x1, x2, y1, y2) = item.get_coords();
    let (r1, r2, r3, r4) = rect.get_coords();
    let left = Bucket::new(x1 - rect.originx, rect.height, rect.originx, rect.originy, rect.bucketid);
    let above = Bucket::new(rect.width, y1 - rect.originy, rect.originx, rect.originy, rect.bucketid);
    let right = Bucket::new(r2 - x2, rect.height, x2, rect.originy, rect.bucketid);
    let below = Bucket::new(rect.width, r4 - y2, rect.originx, y2, rect.bucketid);
    let ghost start = out@;
    if left.width > 0 && left.height > 0 {
        out.push(left);
    }
    if above.width > 0 && above.height > 0 {
        out.push(above);
    }
    if right.width > 0 && right.height > 0 {
        out.push(right);
    }
    if below.width > 0 && below.height > 0 {
        out.push(below);
    }
    assert(out@ =~= start + pieces(*rect, *item));
}

/// Replaces every region that the placed item overlaps by its pieces.
fn carve_regions(bins: &Vec<Bucket>, item: &PackingBox) -> (r: Vec<Bucket>)
    requires
        all_wf(bins@),
        item.edges_fit(),
        item.width > 0,
        item.height > 0,
    ensures
        r@ == carve(bins@, *item),
{
    let mut kept: Vec<Bucket> = Vec::new();
    let mut split: Vec<Bucket> = Vec::new();
    let n = bins.len();
    for k in 0..n
        invariant
            n == bins@.len(),
            all_wf(bins@),
            item.edges_fit(),
            item.width > 0,
            item.height > 0,
            kept@ == bins@.take(k as int).filter(clear_of(*item)),
            split@ == pieces_of(bins@.take(k as int), *item),
    {
        let rect = &bins[k];
        proof {
            let pre = bins@.take(k as int);
            assert(bins@.take(k + 1) =~= pre.push(*rect));
            assert(pre.push(*rect).drop_last() =~= pre);
            pre.lemma_filter_push(*rect, clear_of(*item));
        }
        if item.overlap(rect) {
            push_pieces(&mut split, rect, item);
        } else {
            kept.push(*rect);
        }
    }
    assert(bins@.take(n as int) =~= bins@);
    kept.append(&mut split);
    kept
}

/// Drops every region that another region strictly contains.
fn prune_regions(bins: &Vec<Bucket>) -> (r: Vec<Bucket>)
    requires
        all_wf(bins@),
    ensures
        r@ == prune(bins@),
{
    let mut out: Vec<Bucket> = Vec::new();
    let n = bins.len();
    for k in 0..n
        invariant
            n == bins@.len(),
            all_wf(bins@),
            out@ == bins@.take(k as int).filter(maximal_in(bins@)),
    {
        let mut inside = false;
        for m in 0..n
            invariant
                n == bins@.len(),
                all_wf(bins@),
                0 <= k < n,
                inside <==> exists|q: int|
                    0 <= q < m && strictly_encloses(#[trigger] bins@[q], bins@[k as int]),
        {
            if bins[m] != bins[k] && bins[m].contains(&bins[k]) {
                inside = true;
            }
        }
        proof {
            let pre = bins@.take(k as int);
            assert(bins@.take(k + 1) =~= pre.push(bins@[k as int]));
            pre.lemma_filter_push(bins@[k as int], maximal_in(bins@));
        }
        if !inside {
            out.push(bins[k]);
        }
    }
    assert(bins@.take(n as int) =~= bins@);
    out
}

} // verus!
