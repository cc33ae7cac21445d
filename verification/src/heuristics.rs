//! The heuristics that tell which roads are short.
//!
//! Each heuristic is a test on one road of a map. None of them changes the map, and where
//! a road has no trimmed center line, none that asks for its length picks it.

use vstd::prelude::*;
use crate::geometry::{nearly_parallel_angles, Angle, Distance};
use crate::graph::{lemma_connection_is_road, MapView, RawMap, RoadView};
use crate::ids::{NodeID, OriginalRoad};
use crate::tags::tagged_as_junction;

verus! {

/// Any road shorter than this, in ten-thousandths of a metre, is short wherever it lies:
/// five metres.
pub const SHORT_ROAD_UNITS: u64 = 50_000;

/// A road next to a traffic signal is short if it is at most this long, in
/// ten-thousandths of a metre: twenty metres.
pub const SIGNAL_CLUSTER_UNITS: u64 = 200_000;

/// A dog leg is at most this long, in ten-thousandths of a metre: five metres.
pub const DOG_LEG_UNITS: u64 = 50_000;

/// Two roads count as nearly parallel if their directions differ by less than this, in
/// thousandths of a degree: thirty degrees.
pub const PARALLEL_WITHIN_UNITS: u32 = 30_000;

/// The identifier of a road.
pub open spec fn id_of() -> spec_fn(RoadView) -> OriginalRoad {
    |r: RoadView| r.id
}

/// The identifiers of those of `roads` that pass the test `picks`, in their order.
pub open spec fn select(roads: Seq<RoadView>, picks: spec_fn(RoadView) -> bool) -> Seq<
    OriginalRoad,
> {
    roads.filter(picks).map_values(id_of())
}

/// What one more road adds to a selection.
pub proof fn lemma_select_step(roads: Seq<RoadView>, picks: spec_fn(RoadView) -> bool, k: int)
    requires
        0 <= k < roads.len(),
    ensures
        select(roads.take(k + 1), picks) == if picks(roads[k]) {
            select(roads.take(k), picks).push(roads[k].id)
        } else {
            select(roads.take(k), picks)
        },
{
    let front = roads.take(k);
    assert(roads.take(k + 1) == front.push(roads[k]));
    front.lemma_filter_push(roads[k], picks);
    if picks(roads[k]) {
        assert(front.filter(picks).push(roads[k]).map_values(id_of()) =~= front.filter(
            picks,
        ).map_values(id_of()).push(roads[k].id));
    }
}

/// A selection holds exactly the identifiers of the roads that pass the test.
pub proof fn lemma_select_contains(
    roads: Seq<RoadView>,
    picks: spec_fn(RoadView) -> bool,
    id: OriginalRoad,
)
    ensures
        select(roads, picks).contains(id) <==> exists|at: int|
            0 <= at < roads.len() && (#[trigger] roads[at]).id == id && picks(roads[at]),
{
    let kept = roads.filter(picks);
    let ids = select(roads, picks);
    if ids.contains(id) {
        let j = choose|j: int| 0 <= j < ids.len() && ids[j] == id;
        roads.lemma_filter_pred(picks, j);
        assert(kept.contains(kept[j]));
        roads.lemma_filter_contains_rev(picks, kept[j]);
        let at = choose|at: int| 0 <= at < roads.len() && roads[at] == kept[j];
        assert(roads[at].id == id && picks(roads[at]));
    }
    if exists|at: int| 0 <= at < roads.len() && (#[trigger] roads[at]).id == id && picks(roads[at]) {
        let at = choose|at: int|
            0 <= at < roads.len() && (#[trigger] roads[at]).id == id && picks(roads[at]);
        roads.lemma_filter_contains(picks, at);
        let j = choose|j: int| 0 <= j < kept.len() && kept[j] == roads[at];
        assert(ids[j] == id);
    }
}

impl RoadView {
    /// Whether the road's tags say that it is part of a junction.
    pub open spec fn is_junction(self) -> bool {
        tagged_as_junction(self.tags)
    }

    /// Whether the road has a trimmed center line, and that line is shorter than
    /// `threshold`.
    pub open spec fn shorter_than(self, threshold: nat) -> bool {
        match self.trimmed {
            Some(line) => line.length@ < threshold,
            None => false,
        }
    }

    /// Whether the road has a trimmed center line, and that line is at most `threshold`
    /// long.
    pub open spec fn at_most(self, threshold: nat) -> bool {
        match self.trimmed {
            Some(line) => line.length@ <= threshold,
            None => false,
        }
    }

    /// The direction in which the road's trimmed center line runs where it meets
    /// intersection `i`: that of its first segment if the road starts there, else that of
    /// its last.
    pub open spec fn angle_at(self, i: NodeID) -> Angle
        recommends
            self.trimmed is Some,
    {
        if self.id.i1 == i {
            self.trimmed->0.first_angle
        } else {
            self.trimmed->0.last_angle
        }
    }
}

impl MapView {
    /// Whether road `id` ends at the edge of the mapped area.
    pub open spec fn near_border(self, id: OriginalRoad) -> bool {
        self.is_border(id.i1) || self.is_border(id.i2)
    }

    /// Whether `r` is a short road next to a traffic signal: not tagged as part of a
    /// junction, away from the edge of the map, with a signal at one end at least, and at
    /// most twenty metres long.
    pub open spec fn in_signal_cluster(self, r: RoadView) -> bool {
        &&& !r.is_junction()
        &&& !self.near_border(r.id)
        &&& (self.is_signalized(r.id.i1) || self.is_signalized(r.id.i2))
        &&& r.at_most(SIGNAL_CLUSTER_UNITS as nat)
    }

    /// Whether each of `ids` is a road that cars can drive along and that stays away from
    /// the edge of the map.
    pub open spec fn all_driveable_inland(self, ids: Seq<OriginalRoad>) -> bool {
        forall|k: int|
            0 <= k < ids.len() ==> self.road(#[trigger] ids[k]).driveable && !self.near_border(
                ids[k],
            )
    }

    /// Whether exactly three roads end at intersection `i`, each of them driveable and away
    /// from the edge of the map.
    pub open spec fn plain_three_way(self, i: NodeID) -> bool {
        &&& self.roads_per_intersection(i).len() == 3
        &&& self.all_driveable_inland(self.roads_per_intersection(i))
    }

    /// Whether each of the roads `ids` has a trimmed center line.
    pub open spec fn all_have_geometry(self, ids: Seq<OriginalRoad>) -> bool {
        forall|k: int| 0 <= k < ids.len() ==> self.road(#[trigger] ids[k]).trimmed is Some
    }

    /// Whether the first three of the roads `ids` leave intersection `i` nearly parallel to
    /// each other, if each of `ids` has a trimmed center line.
    pub open spec fn nearly_parallel(self, ids: Seq<OriginalRoad>, i: NodeID) -> Option<bool> {
        if self.all_have_geometry(ids) {
            let a = self.road(ids[0]).angle_at(i)@;
            let b = self.road(ids[1]).angle_at(i)@;
            let c = self.road(ids[2]).angle_at(i)@;
            let within = PARALLEL_WITHIN_UNITS as nat;
            Some(
                nearly_parallel_angles(a, b, within) && nearly_parallel_angles(a, c, within)
                    && nearly_parallel_angles(b, c, within),
            )
        } else {
            None
        }
    }

    /// Whether intersection `i` is taken for the place where a road splits into two
    /// carriageways: the roads that end there are nearly parallel, or one of them has no
    /// trimmed center line to tell.
    pub open spec fn parallel_split(self, i: NodeID) -> bool {
        match self.nearly_parallel(self.roads_per_intersection(i), i) {
            Some(parallel) => parallel,
            None => true,
        }
    }

    /// Whether intersection `i` can be one end of a dog leg. With `spare_splits`, the place
    /// where a road splits into two carriageways cannot.
    pub open spec fn dog_leg_end(self, i: NodeID, spare_splits: bool) -> bool {
        &&& self.plain_three_way(i)
        &&& spare_splits ==> !self.parallel_split(i)
    }

    /// Whether `r` is a dog leg: at most five metres long, between two intersections that
    /// can each be the end of one.
    pub open spec fn is_dog_leg(self, r: RoadView, spare_splits: bool) -> bool {
        &&& r.at_most(DOG_LEG_UNITS as nat)
        &&& self.dog_leg_end(r.id.i1, spare_splits)
        &&& self.dog_leg_end(r.id.i2, spare_splits)
    }

    /// The test of the signal cluster heuristic on this map.
    pub open spec fn picks_signal_cluster(self) -> spec_fn(RoadView) -> bool {
        |r: RoadView| self.in_signal_cluster(r)
    }

    /// The test of the dog leg heuristic on this map.
    pub open spec fn picks_dog_leg(self, spare_splits: bool) -> spec_fn(RoadView) -> bool {
        |r: RoadView| self.is_dog_leg(r, spare_splits)
    }

    /// The short roads next to traffic signals, in the order of the map.
    pub open spec fn signal_cluster_roads(self) -> Seq<OriginalRoad> {
        select(self.roads, self.picks_signal_cluster())
    }

    /// The dog legs, in the order of the map.
    pub open spec fn dog_leg_roads(self, spare_splits: bool) -> Seq<OriginalRoad> {
        select(self.roads, self.picks_dog_leg(spare_splits))
    }
}

/// Whether road `id` of `map` has a trimmed center line shorter than five metres.
pub fn distance_heuristic(id: OriginalRoad, map: &RawMap) -> (short: bool)
    requires
        map.wf(),
        map@.has_road(id),
    ensures
        short == map@.road(id).shorter_than(SHORT_ROAD_UNITS as nat),
{
    map.is_shorter_than(id, Distance::from_units(SHORT_ROAD_UNITS))
}

/// Whether the roads `roads`, which end at intersection `i`, leave it nearly parallel to
/// each other: the first three of them, pair by pair, to within thirty degrees. There is no
/// answer where one of the roads has no trimmed center line.
pub fn nearly_parallel(map: &RawMap, roads: Vec<OriginalRoad>, i: NodeID) -> (parallel: Option<
    bool,
>)
    requires
        map.wf(),
        map@.has_roads(roads@),
        map@.all_have_geometry(roads@) ==> roads.len() >= 3,
    ensures
        parallel == map@.nearly_parallel(roads@, i),
{
    let mut angles: Vec<Angle> = Vec::new();
    let mut k: usize = 0;
    while k < roads.len()
        invariant
            map.wf(),
            map@.has_roads(roads@),
            k <= roads.len(),
            angles.len() == k,
            forall|j: int|
                0 <= j < k ==> map@.road(#[trigger] roads@[j]).trimmed is Some && angles@[j]
                    == map@.road(roads@[j]).angle_at(i),
        decreases roads.len() - k,
    {
        let id = roads[k];
        assert(map@.has_road(roads@[k as int]));
        match map.trimmed_road_geometry(id) {
            Some(line) => {
                if id.i1 == i {
                    angles.push(line.first_angle);
                } else {
                    angles.push(line.last_angle);
                }
            },
            None => {
                assert(!(map@.road(roads@[k as int]).trimmed is Some));
                return None;
            },
        }
        k += 1;
    }
    assert(map@.all_have_geometry(roads@));
    let within = PARALLEL_WITHIN_UNITS;
    assert(angles@[0] == map@.road(roads@[0]).angle_at(i));
    assert(angles@[1] == map@.road(roads@[1]).angle_at(i));
    assert(angles@[2] == map@.road(roads@[2]).angle_at(i));
    Some(
        angles[0].approx_parallel(&angles[1], within) && angles[0].approx_parallel(
            &angles[2],
            within,
        ) && angles[1].approx_parallel(&angles[2], within),
    )
}

impl RawMap {
    /// Whether road `id` has a trimmed center line shorter than `threshold`.
    pub fn is_shorter_than(&self, id: OriginalRoad, threshold: Distance) -> (short: bool)
        requires
            self.wf(),
            self@.has_road(id),
        ensures
            short == self@.road(id).shorter_than(threshold@),
    {
        match self.trimmed_road_geometry(id) {
            Some(line) => line.length().shorter_than(&threshold),
            None => false,
        }
    }

    /// Whether road `id` ends at the edge of the mapped area.
    pub fn is_near_border(&self, id: &OriginalRoad) -> (near: bool)
        requires
            self.wf(),
            self@.has_intersection(id.i1),
            self@.has_intersection(id.i2),
        ensures
            near == self@.near_border(*id),
    {
        self.is_border(&id.i1) || self.is_border(&id.i2)
    }

    /// Whether the road at position `at` is a short road next to a traffic signal.
    pub fn in_signal_cluster(&self, at: usize) -> (picked: bool)
        requires
            self.wf(),
            at < self@.roads.len(),
        ensures
            picked == self@.in_signal_cluster(self@.roads[at as int]),
    {
        let road = self.road_at(at);
        proof {
            self.lemma_wf_view();
        }
        if road.osm_tags.is_junction() {
            return false;
        }
        let i1 = self.get_intersection(&road.id.i1);
        let i2 = self.get_intersection(&road.id.i2);
        if i1.is_border() || i2.is_border() {
            return false;
        }
        if !i1.is_traffic_signal() && !i2.is_traffic_signal() {
            return false;
        }
        match road.trimmed {
            Some(line) => line.length().at_most(&Distance::from_units(SIGNAL_CLUSTER_UNITS)),
            None => false,
        }
    }

    /// Whether exactly three roads end at intersection `i`, each of them driveable and away
    /// from the edge of the map, and, with `spare_splits`, not nearly parallel to each other.
    pub fn is_dog_leg_end(&self, i: NodeID, spare_splits: bool) -> (picked: bool)
        requires
            self.wf(),
        ensures
            picked == self@.dog_leg_end(i, spare_splits),
    {
        let connections = self.roads_per_intersection(i);
        if connections.len() != 3 {
            return false;
        }
        proof {
            self.lemma_wf_view();
            assert forall|k: int| 0 <= k < connections@.len() implies self@.has_road(
                #[trigger] connections@[k],
            ) by {
                lemma_connection_is_road(self@, i, k);
            }
        }
        let mut k: usize = 0;
        while k < connections.len()
            invariant
                self.wf(),
                self@.wf(),
                k <= connections.len(),
                connections@ == self@.roads_per_intersection(i),
                connections@.len() == 3,
                self@.has_roads(connections@),
                self@.all_driveable_inland(connections@.take(k as int)),
            decreases connections.len() - k,
        {
            let id = connections[k];
            assert(self@.has_road(connections@[k as int]));
            let road = self.get_road(&id);
            proof {
                let at = self@.road_index(id);
                assert(self@.road_at(at, id));
                assert(self@.has_intersection(self@.roads[at].id.i1));
                assert(self@.has_intersection(self@.roads[at].id.i2));
            }
            if !road.is_driveable() || self.is_near_border(&id) {
                assert(!self@.all_driveable_inland(connections@));
                return false;
            }
            proof {
                assert forall|j: int| 0 <= j < connections@.take(k + 1).len() implies self@.road(
                    #[trigger] connections@.take(k + 1)[j],
                ).driveable && !self@.near_border(connections@.take(k + 1)[j]) by {
                    if j < k {
                        assert(connections@.take(k as int)[j] == connections@[j]);
                    }
                }
            }
            k += 1;
        }
        assert(connections@.take(k as int) == connections@);
        if spare_splits {
            match nearly_parallel(self, connections, i) {
                Some(parallel) => !parallel,
                None => false,
            }
        } else {
            true
        }
    }

    /// Whether the road at position `at` is a dog leg.
    pub fn is_dog_leg(&self, at: usize, spare_splits: bool) -> (picked: bool)
        requires
            self.wf(),
            at < self@.roads.len(),
        ensures
            picked == self@.is_dog_leg(self@.roads[at as int], spare_splits),
    {
        let road = self.road_at(at);
        let short = match road.trimmed {
            Some(line) => line.length().at_most(&Distance::from_units(DOG_LEG_UNITS)),
            None => false,
        };
        short && self.is_dog_leg_end(road.id.i1, spare_splits) && self.is_dog_leg_end(
            road.id.i2,
            spare_splits,
        )
    }

    /// The short roads next to traffic signals, in the order of the map.
    pub fn signal_cluster_roads(&self) -> (ids: Vec<OriginalRoad>)
        requires
            self.wf(),
        ensures
            ids@ == self@.signal_cluster_roads(),
    {
        let mut ids: Vec<OriginalRoad> = Vec::new();
        let mut at: usize = 0;
        while at < self.num_roads()
            invariant
                self.wf(),
                at <= self@.roads.len(),
                ids@ == select(self@.roads.take(at as int), self@.picks_signal_cluster()),
            decreases self@.roads.len() - at,
        {
            proof {
                lemma_select_step(self@.roads, self@.picks_signal_cluster(), at as int);
            }
            if self.in_signal_cluster(at) {
                ids.push(self.road_at(at).id);
            }
            at += 1;
        }
        assert(self@.roads.take(at as int) == self@.roads);
        ids
    }

    /// The dog legs, in the order of the map.
    pub fn dog_leg_roads(&self, spare_splits: bool) -> (ids: Vec<OriginalRoad>)
        requires
            self.wf(),
        ensures
            ids@ == self@.dog_leg_roads(spare_splits),
    {
        let mut ids: Vec<OriginalRoad> = Vec::new();
        let mut at: usize = 0;
        while at < self.num_roads()
            invariant
                self.wf(),
                at <= self@.roads.len(),
                ids@ == select(self@.roads.take(at as int), self@.picks_dog_leg(spare_splits)),
            decreases self@.roads.len() - at,
        {
            proof {
                lemma_select_step(self@.roads, self@.picks_dog_leg(spare_splits), at as int);
            }
            if self.is_dog_leg(at, spare_splits) {
                ids.push(self.road_at(at).id);
            }
            at += 1;
        }
        assert(self@.roads.take(at as int) == self@.roads);
        ids
    }
}

} // verus!
