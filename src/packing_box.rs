//! Items to pack and their placement.

use crate::bucket::Bucket;
use vstd::prelude::*;

verus! {

/// An item to pack: a fixed width and height, and once placed, its origin
/// and the container that holds it.
#[derive(Debug, Clone, Copy, PartialEq, Eq, Structural)]
pub struct PackingBox {
    pub width: i32,
    pub height: i32,
    pub originx: Option<i32>,
    pub originy: Option<i32>,
    pub bucketid: Option<i32>,
}

impl PackingBox {
    /// The item has a recorded position and container.
    pub open spec fn is_placed(self) -> bool {
        self.originx.is_some() && self.originy.is_some() && self.bucketid.is_some()
    }

    /// Left edge of a placed item.
    pub open spec fn left(self) -> int {
        self.originx.unwrap() as int
    }

    /// Right edge of a placed item: origin plus width.
    pub open spec fn right(self) -> int {
        self.originx.unwrap() + self.width
    }

    /// Top edge of a placed item.
    pub open spec fn top(self) -> int {
        self.originy.unwrap() as int
    }

    /// Bottom edge of a placed item: origin plus height.
    pub open spec fn bottom(self) -> int {
        self.originy.unwrap() + self.height
    }

    /// The origin is recorded and both far edges are representable as `i32`.
    pub open spec fn edges_fit(self) -> bool {
        &&& self.originx.is_some()
        &&& self.originy.is_some()
        &&& i32::MIN <= self.right() <= i32::MAX
        &&& i32::MIN <= self.bottom() <= i32::MAX
    }

    pub open spec fn area_spec(self) -> int {
        self.width * self.height
    }

    /// The item sits in the region's container and their interiors intersect.
    pub open spec fn overlaps_region(self, other: Bucket) -> bool {
        &&& self.bucketid == Some(other.bucketid)
        &&& self.left() < other.right()
        &&& other.left() < self.right()
        &&& self.top() < other.bottom()
        &&& other.top() < self.bottom()
    }

    /// Two placed items share a container and their interiors intersect.
    pub open spec fn overlaps_item(self, other: PackingBox) -> bool {
        &&& self.bucketid.is_some()
        &&& self.bucketid == other.bucketid
        &&& self.left() < other.right()
        &&& other.left() < self.right()
        &&& self.top() < other.bottom()
        &&& other.top() < self.bottom()
    }

    /// A new, unplaced item.
    pub fn new(width: i32, height: i32) -> (r: Self)
        ensures
            r == (PackingBox { width, height, originx: None, originy: None, bucketid: None }),
    {
        Self { width, height, originx: None, originy: None, bucketid: None }
    }

    /// Records the item's origin and container.
    pub fn place(&mut self, originx: i32, originy: i32, bucketid: i32)
        ensures
            *final(self) == (PackingBox {
                width: old(self).width,
                height: old(self).height,
                originx: Some(originx),
                originy: Some(originy),
                bucketid: Some(bucketid),
            }),
    {
        self.originx = Some(originx);
        self.originy = Some(originy);
        self.bucketid = Some(bucketid);
    }

    /// The edges of a placed item as `(left, right, top, bottom)`.
    pub fn get_coords(&self) -> (r: (i32, i32, i32, i32))
        requires
            self.edges_fit(),
        ensures
            r.0 == self.left(),
            r.1 == self.right(),
            r.2 == self.top(),
            r.3 == self.bottom(),
    {
        let x = self.originx.unwrap();
        let y = self.originy.unwrap();
        (x, x + self.width, y, y + self.height)
    }

    /// Whether the item overlaps the region; an item outside the region's
    /// container never does.
    pub fn overlap(&self, other: &Bucket) -> (r: bool)
        requires
            self.bucketid == Some(other.bucketid) ==> self.edges_fit() && other.edges_fit(),
        ensures
            r == self.overlaps_region(*other),
    {
        match self.bucketid {
            Some(id) => {
                if id != other.bucketid {
                    return false;
                }
            },
            None => {
                return false;
            },
        }
        let self_corners = self.get_corners();
        let other_corners = other.get_corners();
        !(self_corners[1].0 <= other_corners[2].0 || self_corners[2].0 >= other_corners[1].0
            || self_corners[1].1 >= other_corners[2].1 || self_corners[2].1 <= other_corners[1].1)
    }

    /// The corners of a placed item as
    /// `[(left, top), (right, top), (left, bottom), (right, bottom)]`.
    pub fn get_corners(&self) -> (r: [(i32, i32); 4])
        requires
            self.edges_fit(),
        ensures
            r@ == seq![
                (self.left() as i32, self.top() as i32),
                (self.right() as i32, self.top() as i32),
                (self.left() as i32, self.bottom() as i32),
                (self.right() as i32, self.bottom() as i32),
            ],
    {
        let (x1, x2, y1, y2) = self.get_coords();
        let r = [(x1, y1), (x2, y1), (x1, y2), (x2, y2)];
        assert(r@ =~= seq![(x1, y1), (x2, y1), (x1, y2), (x2, y2)]);
        r
    }
}

} // verus!
