//! Identifiers of intersections and roads.

use vstd::prelude::*;

verus! {

/// Identifies an intersection by the node of the source data that it was built from.
#[derive(Clone, Copy, Debug, PartialEq, Eq, Structural, PartialOrd, Ord, Hash)]
pub struct NodeID(pub i64);

/// Identifies a way of the source data. Several roads may stem from one way.
#[derive(Clone, Copy, Debug, PartialEq, Eq, Structural, PartialOrd, Ord, Hash)]
pub struct WayID(pub i64);

/// Identifies a road by the way that it stems from and the two intersections that it joins.
#[derive(Clone, Copy, Debug, PartialEq, Eq, Structural, PartialOrd, Ord, Hash)]
pub struct OriginalRoad {
    pub osm_way_id: WayID,
    pub i1: NodeID,
    pub i2: NodeID,
}

impl NodeID {
    /// Whether `self` comes strictly before `other`.
    pub open spec fn before(self, other: NodeID) -> bool {
        self.0 < other.0
    }

    /// Decides `before`.
    pub fn precedes(&self, other: &NodeID) -> (b: bool)
        ensures
            b == self.before(*other),
    {
        self.0 < other.0
    }
}

impl OriginalRoad {
    /// The identifier of the road that stems from way `way` and runs from `i1` to `i2`.
    pub fn new(way: i64, i1: i64, i2: i64) -> (id: OriginalRoad)
        ensures
            id == (OriginalRoad { osm_way_id: WayID(way), i1: NodeID(i1), i2: NodeID(i2) }),
    {
        OriginalRoad { osm_way_id: WayID(way), i1: NodeID(i1), i2: NodeID(i2) }
    }

    /// The order of road identifiers: by way, then by first and by second intersection.
    pub open spec fn before(self, other: OriginalRoad) -> bool {
        self.osm_way_id.0 < other.osm_way_id.0 || (self.osm_way_id.0 == other.osm_way_id.0 && (
            self.i1.0 < other.i1.0 || (self.i1.0 == other.i1.0 && self.i2.0 < other.i2.0)))
    }

    /// Decides `before`.
    pub fn precedes(&self, other: &OriginalRoad) -> (b: bool)
        ensures
            b == self.before(*other),
    {
        if self.osm_way_id.0 != other.osm_way_id.0 {
            self.osm_way_id.0 < other.osm_way_id.0
        } else if self.i1.0 != other.i1.0 {
            self.i1.0 < other.i1.0
        } else {
            self.i2.0 < other.i2.0
        }
    }

    /// Whether the road ends at intersection `i`.
    pub open spec fn touches(self, i: NodeID) -> bool {
        self.i1 == i || self.i2 == i
    }
}

} // verus!
