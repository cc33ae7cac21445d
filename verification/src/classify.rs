//! Finding the short roads of a map and marking them.
//!
//! The heuristics run in a fixed order and their results are put one after another: first
//! the roads that are tagged as part of a junction, together with the roads below the
//! length threshold where that test is asked for; then the short roads next to traffic
//! signals and the dog legs, where asked for; last the roads that were named by hand. Only
//! then is the map changed, in one step.

use vstd::prelude::*;
use crate::geometry::Distance;
use crate::graph::{lemma_road_of_position, GraphError, MapView, RawMap, RoadView};
use crate::heuristics::{lemma_select_contains, lemma_select_step, select, SHORT_ROAD_UNITS};
use crate::ids::OriginalRoad;

verus! {

/// Which heuristics run.
#[derive(Clone, Copy, Debug)]
pub struct Heuristics {
    /// Whether every road below the length threshold counts as short.
    pub consolidate_all: bool,
    /// The length threshold of that test.
    pub distance_threshold: Distance,
    /// Whether short roads next to traffic signals count as short.
    pub signal_clusters: bool,
    /// Whether dog legs count as short.
    pub dog_legs: bool,
    /// Whether the dog leg heuristic leaves out the places where a road splits into two
    /// carriageways.
    pub spare_parallel_splits: bool,
}

/// The usual choice of heuristics, as contracts see it.
pub open spec fn standard_heuristics(consolidate_all: bool) -> Heuristics {
    Heuristics {
        consolidate_all,
        distance_threshold: Distance { units: SHORT_ROAD_UNITS },
        signal_clusters: false,
        dog_legs: false,
        spare_parallel_splits: false,
    }
}

impl Heuristics {
    /// The usual choice: the length test as asked for, with a threshold of five metres; no
    /// search for signal clusters or dog legs.
    pub fn standard(consolidate_all: bool) -> (h: Heuristics)
        ensures
            h == standard_heuristics(consolidate_all),
    {
        Heuristics {
            consolidate_all,
            distance_threshold: Distance::from_units(SHORT_ROAD_UNITS),
            signal_clusters: false,
            dog_legs: false,
            spare_parallel_splits: false,
        }
    }
}

/// The roads that were named by hand, none where there is no such list.
pub open spec fn named_by_hand(overrides: Option<Vec<OriginalRoad>>) -> Seq<OriginalRoad> {
    match overrides {
        Some(ids) => ids@,
        None => Seq::empty(),
    }
}

impl MapView {
    /// The test of the first pass: the road is tagged as part of a junction, or the length
    /// test is asked for and the road is below the threshold.
    pub open spec fn picks_tagged_or_short(h: Heuristics) -> spec_fn(RoadView) -> bool {
        |r: RoadView|
            r.is_junction() || (h.consolidate_all && r.shorter_than(h.distance_threshold@))
    }

    /// The roads that the first pass picks, in the order of the map.
    pub open spec fn tagged_or_short_roads(self, h: Heuristics) -> Seq<OriginalRoad> {
        select(self.roads, Self::picks_tagged_or_short(h))
    }

    /// The roads that the optional passes pick: the short roads next to traffic signals,
    /// then the dog legs, each where asked for.
    pub open spec fn optional_roads(self, h: Heuristics) -> Seq<OriginalRoad> {
        (if h.signal_clusters {
            self.signal_cluster_roads()
        } else {
            Seq::empty()
        }) + (if h.dog_legs {
            self.dog_leg_roads(h.spare_parallel_splits)
        } else {
            Seq::empty()
        })
    }

    /// The roads that the heuristics pick on their own, without the roads named by hand.
    pub open spec fn detected(self, h: Heuristics) -> Seq<OriginalRoad> {
        self.tagged_or_short_roads(h) + self.optional_roads(h)
    }

    /// All short roads: what the heuristics pick, then the roads named by hand.
    pub open spec fn flagged(self, h: Heuristics, overrides: Seq<OriginalRoad>) -> Seq<
        OriginalRoad,
    > {
        self.detected(h) + overrides
    }
}

/// Whatever a heuristic picks is a road of the map.
pub proof fn lemma_selected_are_roads(m: MapView, picks: spec_fn(RoadView) -> bool)
    ensures
        m.has_roads(select(m.roads, picks)),
{
    let ids = select(m.roads, picks);
    assert forall|k: int| 0 <= k < ids.len() implies m.has_road(#[trigger] ids[k]) by {
        assert(ids.contains(ids[k]));
        lemma_select_contains(m.roads, picks, ids[k]);
        let at = choose|at: int|
            0 <= at < m.roads.len() && (#[trigger] m.roads[at]).id == ids[k] && picks(m.roads[at]);
        assert(m.road_at(at, ids[k]));
    }
}

/// Whatever the heuristics pick on their own is a road of the map.
pub proof fn lemma_detected_are_roads(m: MapView, h: Heuristics)
    ensures
        m.has_roads(m.detected(h)),
{
    lemma_selected_are_roads(m, MapView::picks_tagged_or_short(h));
    lemma_selected_are_roads(m, m.picks_signal_cluster());
    lemma_selected_are_roads(m, m.picks_dog_leg(h.spare_parallel_splits));
}

impl RawMap {
    /// The roads that the first pass picks, in the order of the map.
    pub fn tagged_or_short_roads(&self, heuristics: &Heuristics) -> (ids: Vec<OriginalRoad>)
        requires
            self.wf(),
        ensures
            ids@ == self@.tagged_or_short_roads(*heuristics),
    {
        let ghost picks = MapView::picks_tagged_or_short(*heuristics);
        let mut ids: Vec<OriginalRoad> = Vec::new();
        let mut at: usize = 0;
        while at < self.num_roads()
            invariant
                self.wf(),
                at <= self@.roads.len(),
                picks == MapView::picks_tagged_or_short(*heuristics),
                ids@ == select(self@.roads.take(at as int), picks),
            decreases self@.roads.len() - at,
        {
            proof {
                self.lemma_wf_view();
                lemma_select_step(self@.roads, picks, at as int);
                lemma_road_of_position(self@, at as int);
            }
            let road = self.road_at(at);
            if road.osm_tags.is_junction() {
                ids.push(road.id);
            } else if heuristics.consolidate_all && self.is_shorter_than(
                road.id,
                heuristics.distance_threshold,
            ) {
                ids.push(road.id);
            }
            at += 1;
        }
        assert(self@.roads.take(at as int) == self@.roads);
        ids
    }

    /// All short roads of the map: what the heuristics pick, then the roads named by hand.
    /// The map stays as it is.
    pub fn short_roads(&self, heuristics: &Heuristics, overrides: Option<Vec<OriginalRoad>>) -> (ids:
        Vec<OriginalRoad>)
        requires
            self.wf(),
        ensures
            ids@ == self@.flagged(*heuristics, named_by_hand(overrides)),
    {
        let mut ids = self.tagged_or_short_roads(heuristics);
        if heuristics.signal_clusters {
            let mut found = self.signal_cluster_roads();
            ids.append(&mut found);
        }
        if heuristics.dog_legs {
            let mut found = self.dog_leg_roads(heuristics.spare_parallel_splits);
            ids.append(&mut found);
        }
        if let Some(mut ways) = overrides {
            ids.append(&mut ways);
        }
        assert(ids@ =~= self@.flagged(*heuristics, named_by_hand(overrides)));
        ids
    }

    /// Finds the short roads next to traffic signals and marks them.
    pub fn find_traffic_signal_clusters(&mut self) -> (ids: Vec<OriginalRoad>)
        requires
            old(self).wf(),
        ensures
            final(self).wf(),
            ids@ == old(self)@.signal_cluster_roads(),
            final(self)@ == old(self)@.marked(ids@),
    {
        let results = self.signal_cluster_roads();
        proof {
            lemma_selected_are_roads(self@, self@.picks_signal_cluster());
        }
        match self.mark_short_roads(results) {
            Ok(ids) => ids,
            Err(_) => vstd::pervasive::unreached(),
        }
    }

    /// Finds the dog legs and marks them. The places where a road splits into two
    /// carriageways are not left out.
    pub fn find_dog_legs(&mut self) -> (ids: Vec<OriginalRoad>)
        requires
            old(self).wf(),
        ensures
            final(self).wf(),
            ids@ == old(self)@.dog_leg_roads(false),
            final(self)@ == old(self)@.marked(ids@),
    {
        self.find_dog_legs_with(false)
    }

    /// Finds the dog legs and marks them. With `spare_splits`, the places where a road
    /// splits into two carriageways are left out.
    pub fn find_dog_legs_with(&mut self, spare_splits: bool) -> (ids: Vec<OriginalRoad>)
        requires
            old(self).wf(),
        ensures
            final(self).wf(),
            ids@ == old(self)@.dog_leg_roads(spare_splits),
            final(self)@ == old(self)@.marked(ids@),
    {
        let results = self.dog_leg_roads(spare_splits);
        proof {
            lemma_selected_are_roads(self@, self@.picks_dog_leg(spare_splits));
        }
        match self.mark_short_roads(results) {
            Ok(ids) => ids,
            Err(_) => vstd::pervasive::unreached(),
        }
    }
}

/// Finds the short roads of `map` by the heuristics `heuristics`, adds the roads named by
/// hand in `overrides`, and marks them all. Where the map lacks one of the roads named by
/// hand, nothing is marked and the first such identifier is reported.
pub fn find_short_roads_with(
    map: &mut RawMap,
    heuristics: &Heuristics,
    overrides: Option<Vec<OriginalRoad>>,
) -> (done: Result<Vec<OriginalRoad>, GraphError>)
    requires
        old(map).wf(),
    ensures
        final(map).wf(),
        match done {
            Ok(ids) => {
                &&& old(map)@.has_roads(named_by_hand(overrides))
                &&& ids@ == old(map)@.flagged(*heuristics, named_by_hand(overrides))
                &&& final(map)@ == old(map)@.marked(ids@)
            },
            Err(e) => {
                &&& final(map)@ == old(map)@
                &&& exists|k: int|
                    #![trigger named_by_hand(overrides)[k]]
                    old(map)@.first_unknown_at(named_by_hand(overrides), k) && e
                        == GraphError::UnknownRoad(named_by_hand(overrides)[k])
            },
        },
{
    let ghost before = map@;
    let ghost by_hand = named_by_hand(overrides);
    let ghost detected = before.detected(*heuristics);
    let roads = map.short_roads(heuristics, overrides);
    let ghost all = roads@;
    proof {
        lemma_detected_are_roads(before, *heuristics);
        assert(all == detected + by_hand);
    }
    let done = map.mark_short_roads(roads);
    proof {
        match done {
            Ok(_) => {
                assert forall|k: int| 0 <= k < by_hand.len() implies before.has_road(
                    #[trigger] by_hand[k],
                ) by {
                    assert(all[detected.len() + k] == by_hand[k]);
                }
            },
            Err(e) => {
                let k = choose|k: int|
                    #![trigger all[k]]
                    before.first_unknown_at(all, k) && e == GraphError::UnknownRoad(all[k]);
                if k < detected.len() {
                    assert(all[k] == detected[k]);
                }
                let j = k - detected.len();
                assert(all[k] == by_hand[j]);
                assert forall|n: int| 0 <= n < by_hand.take(j).len() implies before.has_road(
                    #[trigger] by_hand.take(j)[n],
                ) by {
                    assert(all.take(k)[detected.len() + n] == by_hand[n]);
                }
                assert(before.first_unknown_at(by_hand, j));
            },
        }
    }
    done
}

/// Finds the short roads of `map` and marks them: the roads tagged as part of a junction,
/// the roads shorter than five metres if `consolidate_all` is set, and the roads named by
/// hand in `overrides`. Where the map lacks one of the roads named by hand, nothing is
/// marked and the first such identifier is reported.
pub fn find_short_roads(
    map: &mut RawMap,
    consolidate_all: bool,
    overrides: Option<Vec<OriginalRoad>>,
) -> (done: Result<Vec<OriginalRoad>, GraphError>)
    requires
        old(map).wf(),
    ensures
        final(map).wf(),
        match done {
            Ok(ids) => {
                &&& old(map)@.has_roads(named_by_hand(overrides))
                &&& ids@ == old(map)@.flagged(
                    standard_heuristics(consolidate_all),
                    named_by_hand(overrides),
                )
                &&& final(map)@ == old(map)@.marked(ids@)
            },
            Err(e) => {
                &&& final(map)@ == old(map)@
                &&& exists|k: int|
                    #![trigger named_by_hand(overrides)[k]]
                    old(map)@.first_unknown_at(named_by_hand(overrides), k) && e
                        == GraphError::UnknownRoad(named_by_hand(overrides)[k])
            },
        },
{
    let heuristics = Heuristics::standard(consolidate_all);
    find_short_roads_with(map, &heuristics, overrides)
}

} // verus!
