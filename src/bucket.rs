//! Free rectangular regions of containers.

use vstd::prelude::*;

verus! {

/// A free rectangular region of a container: its size, its origin and the
/// identifier of the container it belongs to.
#[derive(Debug, Clone, Copy, PartialEq, Eq, Structural)]
pub struct Bucket {
    pub width: i32,
    pub height: i32,
    pub originx: i32,
    pub originy: i32,
    pub bucketid: i32,
}

impl Bucket {
    /// Left edge.
    pub open spec fn left(self) -> int {
        self.originx as int
    }

    /// Right edge: origin plus width.
    pub open spec fn right(self) -> int {
        self.originx + self.width
    }

    /// Top edge.
    pub open spec fn top(self) -> int {
        self.originy as int
    }

    /// Bottom edge: origin plus height.
    pub open spec fn bottom(self) -> int {
        self.originy + self.height
    }

    /// Both far edges are representable as `i32`.
    pub open spec fn edges_fit(self) -> bool {
        i32::MIN <= self.right() <= i32::MAX && i32::MIN <= self.bottom() <= i32::MAX
    }

    /// A usable free region: positive width and height, edges in range.
    pub open spec fn wf(self) -> bool {
        self.width > 0 && self.height > 0 && self.edges_fit()
    }

    pub open spec fn area_spec(self) -> int {
        self.width * self.height
    }

    /// Same container, and the interiors intersect on both axes; regions
    /// that only share an edge do not overlap.
    pub open spec fn overlaps(self, other: Bucket) -> bool {
        &&& self.bucketid == other.bucketid
        &&& self.left() < other.right()
        &&& other.left() < self.right()
        &&& self.top() < other.bottom()
        &&& other.top() < self.bottom()
    }

    /// Same container, and `other` lies within `self`, boundaries inclusive.
    pub open spec fn encloses(self, other: Bucket) -> bool {
        &&& self.bucketid == other.bucketid
        &&& self.left() <= other.left()
        &&& other.right() <= self.right()
        &&& self.top() <= other.top()
        &&& other.bottom() <= self.bottom()
    }

    pub fn new(width: i32, height: i32, originx: i32, originy: i32, bucketid: i32) -> (r: Self)
        ensures
            r.width == width,
            r.height == height,
            r.originx == originx,
            r.originy == originy,
            r.bucketid == bucketid,
    {
        Self { width, height, originx, originy, bucketid }
    }

    /// The edges as `(left, right, top, bottom)`.
    pub fn get_coords(&self) -> (r: (i32, i32, i32, i32))
        requires
            self.edges_fit(),
        ensures
            r.0 == self.left(),
            r.1 == self.right(),
            r.2 == self.top(),
            r.3 == self.bottom(),
    {
        (self.originx, self.originx + self.width, self.originy, self.originy + self.height)
    }

    /// The corners as `[(left, top), (right, top), (left, bottom), (right, bottom)]`.
    pub fn get_corners(&self) -> (r: [(i32, i32); 4])
        requires
            self.edges_fit(),
        ensures
            r@ == seq![
                (self.left() as i32, self.top() as i32),
                (self.right() as i32, self.top() as i32),
                (self.left() as i32, self.bottom() as i32),
                (self.right() as i32, self.bottom() as i32),
            ],
    {
        let (x1, x2, y1, y2) = self.get_coords();
        let r = [(x1, y1), (x2, y1), (x1, y2), (x2, y2)];
        assert(r@ =~= seq![(x1, y1), (x2, y1), (x1, y2), (x2, y2)]);
        r
    }

    /// Whether the two regions overlap; regions of different containers never do.
    pub fn overlap(&self, other: &Bucket) -> (r: bool)
        requires
            self.bucketid == other.bucketid ==> self.edges_fit() && other.edges_fit(),
        ensures
            r == self.overlaps(*other),
    {
        if self.bucketid != other.bucketid {
            return false;
        }
        let self_corners = self.get_corners();
        let other_corners = other.get_corners();
        !(self_corners[1].0 <= other_corners[2].0 || self_corners[2].0 >= other_corners[1].0
            || self_corners[1].1 >= other_corners[2].1 || self_corners[2].1 <= other_corners[1].1)
    }

    /// Whether `other` lies entirely within this region; regions of
    /// different containers never contain each other.
    pub fn contains(&self, other: &Bucket) -> (r: bool)
        requires
            self.bucketid == other.bucketid ==> self.edges_fit() && other.edges_fit(),
        ensures
            r == self.encloses(*other),
    {
        if self.bucketid != other.bucketid {
            return false;
        }
        let self_corners = self.get_corners();
        let other_corners = other.get_corners();
        self_corners[0].0 <= other_corners[0].0 && other_corners[3].0 <= self_corners[3].0
            && self_corners[0].1 <= other_corners[0].1 && other_corners[3].1 <= self_corners[3].1
    }

    /// Width times height.
    pub fn area(&self) -> (r: i32)
        requires
            i32::MIN <= self.area_spec() <= i32::MAX,
        ensures
            r == self.area_spec(),
    {
        self.width * self.height
    }
}

} // verus!
