//! The raw map: intersections, and the roads that join them.
//!
//! Roads and intersections are kept in the order of their identifiers, each identifier
//! once. Every walk over the map follows that order, so what a heuristic returns is the
//! same on every run.

use vstd::prelude::*;
use crate::geometry::CenterLine;
use crate::ids::{NodeID, OriginalRoad};
use crate::tags::{with_junction_tag, Tags, INTERSECTION, JUNCTION};

verus! {

/// How traffic is controlled at an intersection.
#[derive(Clone, Copy, Debug, PartialEq, Eq, Structural, Hash)]
pub enum IntersectionType {
    /// No control at all.
    Plain,
    /// Stop signs on some of the roads.
    StopSign,
    /// A traffic signal.
    TrafficSignal,
    /// The edge of the mapped area, where roads leave the map.
    Border,
    /// Closed for construction.
    Construction,
}

/// An intersection of the raw map.
#[derive(Clone, Copy, Debug, PartialEq, Eq, Structural, Hash)]
pub struct RawIntersection {
    pub id: NodeID,
    pub intersection_type: IntersectionType,
}

impl RawIntersection {
    /// The intersection `id` with the given control.
    pub fn new(id: NodeID, intersection_type: IntersectionType) -> (i: RawIntersection)
        ensures
            i == (RawIntersection { id, intersection_type }),
    {
        RawIntersection { id, intersection_type }
    }

    /// Whether the intersection lies on the edge of the mapped area.
    pub open spec fn border(self) -> bool {
        self.intersection_type == IntersectionType::Border
    }

    /// Whether a traffic signal controls the intersection.
    pub open spec fn signalized(self) -> bool {
        self.intersection_type == IntersectionType::TrafficSignal
    }

    /// Decides `border`.
    pub fn is_border(&self) -> (b: bool)
        ensures
            b == self.border(),
    {
        self.intersection_type == IntersectionType::Border
    }

    /// Decides `signalized`.
    pub fn is_traffic_signal(&self) -> (b: bool)
        ensures
            b == self.signalized(),
    {
        self.intersection_type == IntersectionType::TrafficSignal
    }
}

/// A road of the raw map.
#[derive(Debug)]
pub struct RawRoad {
    /// The road's identifier, which names the two intersections that it joins.
    pub id: OriginalRoad,
    /// The road's tags.
    pub osm_tags: Tags,
    /// Whether cars can drive along the road.
    pub driveable: bool,
    /// The road's center line once the intersections at its ends have been cut off, if
    /// anything is left of the road then.
    pub trimmed: Option<CenterLine>,
}

/// A road as contracts see it.
pub struct RoadView {
    pub id: OriginalRoad,
    pub tags: Map<Seq<char>, Seq<char>>,
    pub driveable: bool,
    pub trimmed: Option<CenterLine>,
}

impl View for RawRoad {
    type V = RoadView;

    open spec fn view(&self) -> RoadView {
        RoadView {
            id: self.id,
            tags: self.osm_tags@,
            driveable: self.driveable,
            trimmed: self.trimmed,
        }
    }
}

impl RawRoad {
    /// Whether the road is well formed: its tags are.
    pub open spec fn wf(&self) -> bool {
        self.osm_tags.wf()
    }

    /// A road without tags.
    pub fn new(id: OriginalRoad, driveable: bool, trimmed: Option<CenterLine>) -> (road: RawRoad)
        ensures
            road.wf(),
            road@ == (RoadView {
                id,
                tags: Map::<Seq<char>, Seq<char>>::empty(),
                driveable,
                trimmed,
            }),
    {
        RawRoad { id, osm_tags: Tags::new(), driveable, trimmed }
    }

    /// Whether cars can drive along the road.
    pub fn is_driveable(&self) -> (b: bool)
        ensures
            b == self@.driveable,
    {
        self.driveable
    }
}

/// Why a change to a raw map was refused.
#[derive(Clone, Copy, Debug, PartialEq, Eq, Structural, Hash)]
pub enum GraphError {
    /// The map has no road of this identifier.
    UnknownRoad(OriginalRoad),
    /// The map already has a road of this identifier.
    DuplicateRoad(OriginalRoad),
    /// The map has no intersection of this identifier.
    UnknownIntersection(NodeID),
    /// The map already has an intersection of this identifier.
    DuplicateIntersection(NodeID),
}

/// A raw map as contracts see it: its roads and its intersections, each in the order of
/// the identifiers.
pub struct MapView {
    pub roads: Seq<RoadView>,
    pub intersections: Seq<RawIntersection>,
}

impl MapView {
    /// Whether the road at position `at` has the identifier `id`.
    pub open spec fn road_at(self, at: int, id: OriginalRoad) -> bool {
        0 <= at < self.roads.len() && self.roads[at].id == id
    }

    /// Whether the intersection at position `at` has the identifier `id`.
    pub open spec fn intersection_at(self, at: int, id: NodeID) -> bool {
        0 <= at < self.intersections.len() && self.intersections[at].id == id
    }

    /// Whether the map has a road `id`.
    pub open spec fn has_road(self, id: OriginalRoad) -> bool {
        exists|at: int| self.road_at(at, id)
    }

    /// Whether the map has an intersection `id`.
    pub open spec fn has_intersection(self, id: NodeID) -> bool {
        exists|at: int| self.intersection_at(at, id)
    }

    /// The position of road `id`, for a map that has it.
    pub open spec fn road_index(self, id: OriginalRoad) -> int {
        choose|at: int| self.road_at(at, id)
    }

    /// The position of intersection `id`, for a map that has it.
    pub open spec fn intersection_index(self, id: NodeID) -> int {
        choose|at: int| self.intersection_at(at, id)
    }

    /// The road `id`, for a map that has it.
    pub open spec fn road(self, id: OriginalRoad) -> RoadView {
        self.roads[self.road_index(id)]
    }

    /// The intersection `id`, for a map that has it.
    pub open spec fn intersection(self, id: NodeID) -> RawIntersection {
        self.intersections[self.intersection_index(id)]
    }

    /// Whether intersection `id` lies on the edge of the mapped area.
    pub open spec fn is_border(self, id: NodeID) -> bool {
        self.intersection(id).border()
    }

    /// Whether a traffic signal controls intersection `id`.
    pub open spec fn is_signalized(self, id: NodeID) -> bool {
        self.intersection(id).signalized()
    }

    /// Whether the roads stand in the strict order of their identifiers.
    pub open spec fn roads_sorted(self) -> bool {
        forall|i: int, j: int|
            0 <= i < j < self.roads.len() ==> (#[trigger] self.roads[i]).id.before(
                (#[trigger] self.roads[j]).id,
            )
    }

    /// Whether the intersections stand in the strict order of their identifiers.
    pub open spec fn intersections_sorted(self) -> bool {
        forall|i: int, j: int|
            0 <= i < j < self.intersections.len() ==> (#[trigger] self.intersections[i]).id.before(
                (#[trigger] self.intersections[j]).id,
            )
    }

    /// Whether the map has both intersections that each road names.
    pub open spec fn endpoints_known(self) -> bool {
        forall|i: int|
            0 <= i < self.roads.len() ==> self.has_intersection((#[trigger] self.roads[i]).id.i1)
                && self.has_intersection(self.roads[i].id.i2)
    }

    /// Whether the map is well formed: roads and intersections are in order, each identifier
    /// once, and every road joins two intersections of the map.
    pub open spec fn wf(self) -> bool {
        &&& self.roads_sorted()
        &&& self.intersections_sorted()
        &&& self.endpoints_known()
    }

    /// The identifiers of the roads, in their order.
    pub open spec fn road_ids(self) -> Seq<OriginalRoad> {
        self.roads.map_values(|r: RoadView| r.id)
    }

    /// The test that picks the identifiers of the roads which end at intersection `i`.
    pub open spec fn touching(i: NodeID) -> spec_fn(OriginalRoad) -> bool {
        |id: OriginalRoad| id.touches(i)
    }

    /// The identifiers of the roads that end at intersection `i`, in their order.
    pub open spec fn roads_per_intersection(self, i: NodeID) -> Seq<OriginalRoad> {
        self.road_ids().filter(Self::touching(i))
    }

    /// The map with the junction tag set on the road at position `at`.
    pub open spec fn with_mark_at(self, at: int) -> MapView {
        MapView {
            roads: self.roads.update(
                at,
                RoadView {
                    id: self.roads[at].id,
                    tags: with_junction_tag(self.roads[at].tags),
                    driveable: self.roads[at].driveable,
                    trimmed: self.roads[at].trimmed,
                },
            ),
            intersections: self.intersections,
        }
    }
}

/// Each road that ends at an intersection is a road of the map and names that intersection.
pub proof fn lemma_connection_is_road(m: MapView, i: NodeID, k: int)
    requires
        0 <= k < m.roads_per_intersection(i).len(),
    ensures
        m.has_road(m.roads_per_intersection(i)[k]),
        m.roads_per_intersection(i)[k].touches(i),
{
    let ids = m.road_ids();
    let found = m.roads_per_intersection(i);
    ids.lemma_filter_pred(MapView::touching(i), k);
    assert(found.contains(found[k]));
    ids.lemma_filter_contains_rev(MapView::touching(i), found[k]);
    let at = choose|at: int| 0 <= at < ids.len() && ids[at] == found[k];
    assert(m.road_at(at, found[k]));
}

/// Each road of the map is among the roads that end at either of its intersections.
pub proof fn lemma_road_is_connection(m: MapView, at: int, i: NodeID)
    requires
        0 <= at < m.roads.len(),
        m.roads[at].id.touches(i),
    ensures
        m.roads_per_intersection(i).contains(m.roads[at].id),
{
    let ids = m.road_ids();
    assert(ids[at] == m.roads[at].id);
    ids.lemma_filter_contains(MapView::touching(i), at);
}

/// In a well-formed map a road's identifier fixes its position.
pub proof fn lemma_road_position_unique(m: MapView, a: int, b: int, id: OriginalRoad)
    requires
        m.roads_sorted(),
        m.road_at(a, id),
        m.road_at(b, id),
    ensures
        a == b,
{
    if a < b {
        assert(m.roads[a].id.before(m.roads[b].id));
    } else if b < a {
        assert(m.roads[b].id.before(m.roads[a].id));
    }
}

/// In a well-formed map an intersection's identifier fixes its position.
pub proof fn lemma_intersection_position_unique(m: MapView, a: int, b: int, id: NodeID)
    requires
        m.intersections_sorted(),
        m.intersection_at(a, id),
        m.intersection_at(b, id),
    ensures
        a == b,
{
    if a < b {
        assert(m.intersections[a].id.before(m.intersections[b].id));
    } else if b < a {
        assert(m.intersections[b].id.before(m.intersections[a].id));
    }
}

/// The road at a position of a well-formed map is the road of its identifier.
pub proof fn lemma_road_of_position(m: MapView, at: int)
    requires
        m.roads_sorted(),
        0 <= at < m.roads.len(),
    ensures
        m.has_road(m.roads[at].id),
        m.road_index(m.roads[at].id) == at,
        m.road(m.roads[at].id) == m.roads[at],
{
    let id = m.roads[at].id;
    assert(m.road_at(at, id));
    lemma_road_position_unique(m, at, m.road_index(id), id);
}

/// The intersection at a position of a well-formed map is the intersection of its
/// identifier.
pub proof fn lemma_intersection_of_position(m: MapView, at: int)
    requires
        m.intersections_sorted(),
        0 <= at < m.intersections.len(),
    ensures
        m.has_intersection(m.intersections[at].id),
        m.intersection_index(m.intersections[at].id) == at,
        m.intersection(m.intersections[at].id) == m.intersections[at],
{
    let id = m.intersections[at].id;
    assert(m.intersection_at(at, id));
    lemma_intersection_position_unique(m, at, m.intersection_index(id), id);
}

/// A raw map.
#[derive(Debug)]
pub struct RawMap {
    roads: Vec<RawRoad>,
    intersections: Vec<RawIntersection>,
}

impl View for RawMap {
    type V = MapView;

    closed spec fn view(&self) -> MapView {
        MapView {
            roads: self.roads@.map_values(|r: RawRoad| r@),
            intersections: self.intersections@,
        }
    }
}

impl RawMap {
    /// Whether the map is well formed: its view is, and so is each of its roads.
    pub closed spec fn wf(&self) -> bool {
        &&& self@.wf()
        &&& forall|i: int| 0 <= i < self.roads.len() ==> (#[trigger] self.roads[i]).wf()
    }

    /// A well-formed map has a well-formed view.
    pub proof fn lemma_wf_view(&self)
        requires
            self.wf(),
        ensures
            self@.wf(),
    {
    }

    /// The map without roads or intersections.
    pub fn new() -> (map: RawMap)
        ensures
            map.wf(),
            map@.roads.len() == 0,
            map@.intersections.len() == 0,
    {
        RawMap { roads: Vec::new(), intersections: Vec::new() }
    }

    /// The number of roads.
    pub fn num_roads(&self) -> (n: usize)
        ensures
            n == self@.roads.len(),
    {
        self.roads.len()
    }

    /// The number of intersections.
    pub fn num_intersections(&self) -> (n: usize)
        ensures
            n == self@.intersections.len(),
    {
        self.intersections.len()
    }

    /// The number of roads whose identifier comes before `id`, which is where a road `id`
    /// stands or would stand.
    fn road_rank(&self, id: &OriginalRoad) -> (at: usize)
        requires
            self.wf(),
        ensures
            at <= self@.roads.len(),
            forall|i: int| 0 <= i < at ==> (#[trigger] self@.roads[i]).id.before(*id),
            forall|i: int|
                at <= i < self@.roads.len() ==> !(#[trigger] self@.roads[i]).id.before(*id),
    {
        let mut lo: usize = 0;
        let mut hi: usize = self.roads.len();
        while lo < hi
            invariant
                self.wf(),
                lo <= hi <= self.roads.len(),
                forall|i: int| 0 <= i < lo ==> (#[trigger] self@.roads[i]).id.before(*id),
                forall|i: int|
                    hi <= i < self@.roads.len() ==> !(#[trigger] self@.roads[i]).id.before(*id),
            decreases hi - lo,
        {
            let mid: usize = lo + (hi - lo) / 2;
            if self.roads[mid].id.precedes(id) {
                assert forall|i: int| 0 <= i < mid + 1 implies (#[trigger] self@.roads[i]).id.before(
                    *id,
                ) by {
                    if i < mid {
                        assert(self@.roads[i].id.before(self@.roads[mid as int].id));
                    }
                }
                lo = mid + 1;
            } else {
                assert forall|i: int| mid <= i < self@.roads.len() implies !(
                #[trigger] self@.roads[i]).id.before(*id) by {
                    if mid < i {
                        assert(self@.roads[mid as int].id.before(self@.roads[i].id));
                    }
                }
                hi = mid;
            }
        }
        lo
    }

    /// The number of intersections whose identifier comes before `id`, which is where an
    /// intersection `id` stands or would stand.
    fn intersection_rank(&self, id: &NodeID) -> (at: usize)
        requires
            self.wf(),
        ensures
            at <= self@.intersections.len(),
            forall|i: int| 0 <= i < at ==> (#[trigger] self@.intersections[i]).id.before(*id),
            forall|i: int|
                at <= i < self@.intersections.len() ==> !(
                #[trigger] self@.intersections[i]).id.before(*id),
    {
        let mut lo: usize = 0;
        let mut hi: usize = self.intersections.len();
        while lo < hi
            invariant
                self.wf(),
                lo <= hi <= self.intersections.len(),
                forall|i: int| 0 <= i < lo ==> (#[trigger] self@.intersections[i]).id.before(*id),
                forall|i: int|
                    hi <= i < self@.intersections.len() ==> !(
                    #[trigger] self@.intersections[i]).id.before(*id),
            decreases hi - lo,
        {
            let mid: usize = lo + (hi - lo) / 2;
            if self.intersections[mid].id.precedes(id) {
                assert forall|i: int| 0 <= i < mid + 1 implies (
                #[trigger] self@.intersections[i]).id.before(*id) by {
                    if i < mid {
                        assert(self@.intersections[i].id.before(self@.intersections[mid as int].id));
                    }
                }
                lo = mid + 1;
            } else {
                assert forall|i: int| mid <= i < self@.intersections.len() implies !(
                #[trigger] self@.intersections[i]).id.before(*id) by {
                    if mid < i {
                        assert(self@.intersections[mid as int].id.before(self@.intersections[i].id));
                    }
                }
                hi = mid;
            }
        }
        lo
    }

    /// The position of road `id`, if the map has it.
    pub fn road_position(&self, id: &OriginalRoad) -> (found: Option<usize>)
        requires
            self.wf(),
        ensures
            match found {
                Some(at) => self@.road_at(at as int, *id),
                None => !self@.has_road(*id),
            },
    {
        let at = self.road_rank(id);
        if at < self.roads.len() && self.roads[at].id == *id {
            Some(at)
        } else {
            assert forall|i: int| !self@.road_at(i, *id) by {
                if self@.road_at(i, *id) {
                    if i < at {
                        assert(self@.roads[i].id.before(*id));
                    } else if i > at {
                        assert(self@.roads[at as int].id.before(self@.roads[i].id));
                    }
                }
            }
            None
        }
    }

    /// The position of intersection `id`, if the map has it.
    pub fn intersection_position(&self, id: &NodeID) -> (found: Option<usize>)
        requires
            self.wf(),
        ensures
            match found {
                Some(at) => self@.intersection_at(at as int, *id),
                None => !self@.has_intersection(*id),
            },
    {
        let at = self.intersection_rank(id);
        if at < self.intersections.len() && self.intersections[at].id == *id {
            Some(at)
        } else {
            assert forall|i: int| !self@.intersection_at(i, *id) by {
                if self@.intersection_at(i, *id) {
                    if i < at {
                        assert(self@.intersections[i].id.before(*id));
                    } else if i > at {
                        assert(self@.intersections[at as int].id.before(self@.intersections[i].id));
                    }
                }
            }
            None
        }
    }

    /// Adds an intersection, unless the map has one of that identifier.
    pub fn add_intersection(&mut self, id: NodeID, intersection_type: IntersectionType) -> (done:
        Result<(), GraphError>)
        requires
            old(self).wf(),
        ensures
            final(self).wf(),
            final(self)@.roads == old(self)@.roads,
            match done {
                Ok(_) => {
                    &&& !old(self)@.has_intersection(id)
                    &&& exists|at: int|
                        0 <= at <= old(self)@.intersections.len() && final(self)@.intersections
                            == #[trigger] old(self)@.intersections.insert(
                            at,
                            RawIntersection { id, intersection_type },
                        )
                },
                Err(e) => {
                    &&& old(self)@.has_intersection(id)
                    &&& e == GraphError::DuplicateIntersection(id)
                    &&& final(self)@ == old(self)@
                },
            },
    {
        let at = self.intersection_rank(&id);
        if at < self.intersections.len() && self.intersections[at].id == id {
            assert(self@.intersection_at(at as int, id));
            return Err(GraphError::DuplicateIntersection(id));
        }
        let ghost before = self@;
        assert forall|i: int| !before.intersection_at(i, id) by {
            if before.intersection_at(i, id) {
                if i < at {
                    assert(before.intersections[i].id.before(id));
                } else if i > at {
                    assert(before.intersections[at as int].id.before(before.intersections[i].id));
                }
            }
        }
        self.intersections.insert(at, RawIntersection { id, intersection_type });
        proof {
            let after = self@;
            assert(after.roads == before.roads);
            assert(after.intersections == before.intersections.insert(
                at as int,
                RawIntersection { id, intersection_type },
            ));
            assert(after.intersections_sorted()) by {
                assert forall|i: int, j: int| 0 <= i < j < after.intersections.len() implies (
                #[trigger] after.intersections[i]).id.before(
                    (#[trigger] after.intersections[j]).id,
                ) by {
                    if j < at {
                        assert(before.intersections[i].id.before(before.intersections[j].id));
                    } else if j == at {
                        assert(before.intersections[i].id.before(id));
                    } else if i < at {
                        assert(before.intersections[i].id.before(before.intersections[j - 1].id));
                    } else if i == at {
                        assert(!before.intersections[j - 1].id.before(id));
                        assert(!before.intersection_at(j - 1, id));
                    } else {
                        assert(before.intersections[i - 1].id.before(before.intersections[j - 1].id));
                    }
                }
            }
            assert forall|n: NodeID| before.has_intersection(n) implies after.has_intersection(
                n,
            ) by {
                let i = before.intersection_index(n);
                assert(before.intersection_at(i, n));
                if i < at {
                    assert(after.intersection_at(i, n));
                } else {
                    assert(after.intersection_at(i + 1, n));
                }
            }
            assert(after.endpoints_known()) by {
                assert forall|i: int| 0 <= i < after.roads.len() implies after.has_intersection(
                    (#[trigger] after.roads[i]).id.i1,
                ) && after.has_intersection(after.roads[i].id.i2) by {
                    assert(before.has_intersection(before.roads[i].id.i1));
                    assert(before.has_intersection(before.roads[i].id.i2));
                }
            }
        }
        Ok(())
    }

    /// Adds a road, unless the map has one of that identifier or lacks one of the two
    /// intersections that the road joins.
    pub fn add_road(&mut self, road: RawRoad) -> (done: Result<(), GraphError>)
        requires
            old(self).wf(),
            road.wf(),
        ensures
            final(self).wf(),
            final(self)@.intersections == old(self)@.intersections,
            match done {
                Ok(_) => {
                    &&& !old(self)@.has_road(road.id)
                    &&& old(self)@.has_intersection(road.id.i1)
                    &&& old(self)@.has_intersection(road.id.i2)
                    &&& exists|at: int|
                        0 <= at <= old(self)@.roads.len() && final(self)@.roads
                            == #[trigger] old(self)@.roads.insert(at, road@)
                },
                Err(e) => {
                    &&& final(self)@ == old(self)@
                    &&& if old(self)@.has_road(road.id) {
                        e == GraphError::DuplicateRoad(road.id)
                    } else if !old(self)@.has_intersection(road.id.i1) {
                        e == GraphError::UnknownIntersection(road.id.i1)
                    } else {
                        &&& !old(self)@.has_intersection(road.id.i2)
                        &&& e == GraphError::UnknownIntersection(road.id.i2)
                    }
                },
            },
    {
        let id = road.id;
        let at = self.road_rank(&id);
        if at < self.roads.len() && self.roads[at].id == id {
            assert(self@.road_at(at as int, id));
            return Err(GraphError::DuplicateRoad(id));
        }
        let ghost before = self@;
        assert forall|i: int| !before.road_at(i, id) by {
            if before.road_at(i, id) {
                if i < at {
                    assert(before.roads[i].id.before(id));
                } else if i > at {
                    assert(before.roads[at as int].id.before(before.roads[i].id));
                }
            }
        }
        if self.intersection_position(&id.i1).is_none() {
            return Err(GraphError::UnknownIntersection(id.i1));
        }
        if self.intersection_position(&id.i2).is_none() {
            return Err(GraphError::UnknownIntersection(id.i2));
        }
        let ghost old_roads = self.roads@;
        let ghost added = road@;
        self.roads.insert(at, road);
        proof {
            let after = self@;
            assert(after.intersections == before.intersections);
            assert(after.roads =~= before.roads.insert(at as int, added));
            assert(after.roads_sorted()) by {
                assert forall|i: int, j: int| 0 <= i < j < after.roads.len() implies (
                #[trigger] after.roads[i]).id.before((#[trigger] after.roads[j]).id) by {
                    if j < at {
                        assert(before.roads[i].id.before(before.roads[j].id));
                    } else if j == at {
                        assert(before.roads[i].id.before(id));
                    } else if i < at {
                        assert(before.roads[i].id.before(before.roads[j - 1].id));
                    } else if i == at {
                        assert(!before.roads[j - 1].id.before(id));
                        assert(!before.road_at(j - 1, id));
                    } else {
                        assert(before.roads[i - 1].id.before(before.roads[j - 1].id));
                    }
                }
            }
            assert(after.endpoints_known()) by {
                assert forall|i: int| 0 <= i < after.roads.len() implies after.has_intersection(
                    (#[trigger] after.roads[i]).id.i1,
                ) && after.has_intersection(after.roads[i].id.i2) by {
                    if i < at {
                        assert(before.has_intersection(before.roads[i].id.i1));
                        assert(before.has_intersection(before.roads[i].id.i2));
                    } else if i > at {
                        assert(before.has_intersection(before.roads[i - 1].id.i1));
                        assert(before.has_intersection(before.roads[i - 1].id.i2));
                    }
                    assert forall|n: NodeID| before.has_intersection(n) implies after.has_intersection(
                        n,
                    ) by {
                        let k = before.intersection_index(n);
                        assert(after.intersection_at(k, n));
                    }
                }
            }
            assert forall|i: int| 0 <= i < self.roads.len() implies (#[trigger] self.roads[i]).wf() by {
                if i < at {
                    assert(self.roads[i] == old_roads[i]);
                } else if i > at {
                    assert(self.roads[i] == old_roads[i - 1]);
                }
            }
        }
        Ok(())
    }

    /// The road `id`, if the map has it.
    pub fn road(&self, id: &OriginalRoad) -> (found: Option<&RawRoad>)
        requires
            self.wf(),
        ensures
            match found {
                Some(road) => self@.has_road(*id) && road@ == self@.road(*id) && road.wf(),
                None => !self@.has_road(*id),
            },
    {
        match self.road_position(id) {
            Some(at) => {
                proof {
                    lemma_road_of_position(self@, at as int);
                }
                Some(&self.roads[at])
            },
            None => None,
        }
    }

    /// The intersection `id`, if the map has it.
    pub fn intersection(&self, id: &NodeID) -> (found: Option<RawIntersection>)
        requires
            self.wf(),
        ensures
            match found {
                Some(i) => self@.has_intersection(*id) && i == self@.intersection(*id),
                None => !self@.has_intersection(*id),
            },
    {
        match self.intersection_position(id) {
            Some(at) => {
                proof {
                    lemma_intersection_of_position(self@, at as int);
                }
                Some(self.intersections[at])
            },
            None => None,
        }
    }

    /// The road at position `at` in the order of the identifiers.
    pub fn road_at(&self, at: usize) -> (road: &RawRoad)
        requires
            self.wf(),
            at < self@.roads.len(),
        ensures
            road@ == self@.roads[at as int],
            road.wf(),
    {
        &self.roads[at]
    }

    /// The identifiers of the roads, in their order.
    pub fn road_ids(&self) -> (ids: Vec<OriginalRoad>)
        ensures
            ids@ == self@.road_ids(),
    {
        let mut ids: Vec<OriginalRoad> = Vec::new();
        let mut i: usize = 0;
        while i < self.roads.len()
            invariant
                i <= self.roads.len(),
                ids@ == self@.roads.take(i as int).map_values(|r: RoadView| r.id),
            decreases self.roads.len() - i,
        {
            ids.push(self.roads[i].id);
            proof {
                assert(self@.roads.take(i + 1) == self@.roads.take(i as int).push(
                    self@.roads[i as int],
                ));
            }
            i += 1;
        }
        proof {
            assert(self@.roads.take(i as int) == self@.roads);
        }
        ids
    }

    /// The road `id` of a map that has it.
    pub fn get_road(&self, id: &OriginalRoad) -> (road: &RawRoad)
        requires
            self.wf(),
            self@.has_road(*id),
        ensures
            road@ == self@.road(*id),
            road.wf(),
    {
        match self.road(id) {
            Some(road) => road,
            None => vstd::pervasive::unreached(),
        }
    }

    /// The intersection `id` of a map that has it.
    pub fn get_intersection(&self, id: &NodeID) -> (i: RawIntersection)
        requires
            self.wf(),
            self@.has_intersection(*id),
        ensures
            i == self@.intersection(*id),
    {
        match self.intersection(id) {
            Some(i) => i,
            None => vstd::pervasive::unreached(),
        }
    }

    /// Whether intersection `id` lies on the edge of the mapped area.
    pub fn is_border(&self, id: &NodeID) -> (b: bool)
        requires
            self.wf(),
            self@.has_intersection(*id),
        ensures
            b == self@.is_border(*id),
    {
        self.get_intersection(id).is_border()
    }

    /// The trimmed center line of road `id`, if anything is left of the road once its
    /// intersections have been cut off.
    pub fn trimmed_road_geometry(&self, id: OriginalRoad) -> (line: Option<CenterLine>)
        requires
            self.wf(),
            self@.has_road(id),
        ensures
            line == self@.road(id).trimmed,
    {
        self.get_road(&id).trimmed
    }

    /// The identifiers of the roads that end at intersection `i`, in their order.
    pub fn roads_per_intersection(&self, i: NodeID) -> (ids: Vec<OriginalRoad>)
        ensures
            ids@ == self@.roads_per_intersection(i),
    {
        let mut ids: Vec<OriginalRoad> = Vec::new();
        let mut k: usize = 0;
        while k < self.roads.len()
            invariant
                k <= self.roads.len(),
                ids@ == self@.road_ids().take(k as int).filter(MapView::touching(i)),
            decreases self.roads.len() - k,
        {
            let id = self.roads[k].id;
            proof {
                let all = self@.road_ids();
                assert(all.take(k + 1) == all.take(k as int).push(id));
                all.take(k as int).lemma_filter_push(id, MapView::touching(i));
            }
            if id.i1 == i || id.i2 == i {
                ids.push(id);
            }
            k += 1;
        }
        proof {
            assert(self@.road_ids().take(k as int) == self@.road_ids());
        }
        ids
    }

    /// Sets the junction tag on the road at position `at`.
    pub fn mark_road_at(&mut self, at: usize)
        requires
            old(self).wf(),
            at < old(self)@.roads.len(),
        ensures
            final(self).wf(),
            final(self)@ == old(self)@.with_mark_at(at as int),
    {
        let ghost before = self@;
        let ghost old_roads = self.roads@;
        self.roads[at].osm_tags.insert(JUNCTION, INTERSECTION);
        proof {
            let after = self@;
            assert(after.roads =~= before.with_mark_at(at as int).roads);
            assert(after.roads_sorted()) by {
                assert forall|i: int, j: int| 0 <= i < j < after.roads.len() implies (
                #[trigger] after.roads[i]).id.before((#[trigger] after.roads[j]).id) by {
                    assert(before.roads[i].id.before(before.roads[j].id));
                }
            }
            assert(after.endpoints_known()) by {
                assert forall|i: int| 0 <= i < after.roads.len() implies after.has_intersection(
                    (#[trigger] after.roads[i]).id.i1,
                ) && after.has_intersection(after.roads[i].id.i2) by {
                    assert(before.has_intersection(before.roads[i].id.i1));
                    assert(before.has_intersection(before.roads[i].id.i2));
                    assert forall|n: NodeID| before.has_intersection(n) implies after.has_intersection(
                        n,
                    ) by {
                        let k = before.intersection_index(n);
                        assert(after.intersection_at(k, n));
                    }
                }
            }
            assert forall|i: int| 0 <= i < self.roads.len() implies (#[trigger] self.roads[i]).wf() by {
                if i != at {
                    assert(self.roads[i] == old_roads[i]);
                }
            }
        }
    }
}

} // verus!
