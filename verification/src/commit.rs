//! Marking roads as short: the one step that changes the map.

use vstd::prelude::*;
use crate::graph::{lemma_road_position_unique, GraphError, MapView, RawMap, RoadView};
use crate::ids::OriginalRoad;
use crate::tags::with_junction_tag;

verus! {

impl RoadView {
    /// The road with the junction tag set.
    pub open spec fn marked(self) -> RoadView {
        RoadView {
            id: self.id,
            tags: with_junction_tag(self.tags),
            driveable: self.driveable,
            trimmed: self.trimmed,
        }
    }
}

impl MapView {
    /// The map with the junction tag set on each road whose identifier is among `ids`.
    pub open spec fn marked(self, ids: Seq<OriginalRoad>) -> MapView {
        MapView {
            roads: Seq::new(
                self.roads.len(),
                |at: int|
                    if ids.contains(self.roads[at].id) {
                        self.roads[at].marked()
                    } else {
                        self.roads[at]
                    },
            ),
            intersections: self.intersections,
        }
    }

    /// Whether the map has a road for each of `ids`.
    pub open spec fn has_roads(self, ids: Seq<OriginalRoad>) -> bool {
        forall|k: int| 0 <= k < ids.len() ==> self.has_road(#[trigger] ids[k])
    }

    /// Whether `ids[k]` is the first of `ids` for which the map has no road.
    pub open spec fn first_unknown_at(self, ids: Seq<OriginalRoad>, k: int) -> bool {
        &&& 0 <= k < ids.len()
        &&& !self.has_road(ids[k])
        &&& self.has_roads(ids.take(k))
    }
}

/// Setting the junction tag twice is setting it once.
pub proof fn lemma_mark_road_idempotent(r: RoadView)
    ensures
        r.marked().marked() == r.marked(),
{
    assert(with_junction_tag(with_junction_tag(r.tags)) =~= with_junction_tag(r.tags));
}

/// Marking no road leaves the map as it is.
pub proof fn lemma_mark_none(m: MapView)
    ensures
        m.marked(Seq::<OriginalRoad>::empty()) == m,
{
    assert(m.marked(Seq::<OriginalRoad>::empty()).roads =~= m.roads);
}

/// Marking the first `k` of `ids` and then the road of `ids[k]`, which stands at `at`, is
/// marking the first `k + 1` of them.
proof fn lemma_mark_step(m: MapView, ids: Seq<OriginalRoad>, k: int, at: int)
    requires
        m.roads_sorted(),
        0 <= k < ids.len(),
        m.road_at(at, ids[k]),
    ensures
        m.marked(ids.take(k)).with_mark_at(at) == m.marked(ids.take(k + 1)),
{
    let shorter = ids.take(k);
    let longer = ids.take(k + 1);
    assert(longer == shorter.push(ids[k]));
    let stepped = m.marked(shorter).with_mark_at(at);
    let target = m.marked(longer);
    assert forall|i: int| 0 <= i < m.roads.len() implies stepped.roads[i] == target.roads[i] by {
        let id = m.roads[i].id;
        if i == at {
            assert(longer[k] == id);
            assert(longer.contains(id));
            lemma_mark_road_idempotent(m.roads[i]);
        } else {
            if longer.contains(id) {
                let j = choose|j: int| 0 <= j < longer.len() && longer[j] == id;
                if j == k {
                    lemma_road_position_unique(m, i, at, id);
                }
                assert(shorter[j] == id);
                assert(shorter.contains(id));
            }
            if shorter.contains(id) {
                let j = choose|j: int| 0 <= j < shorter.len() && shorter[j] == id;
                assert(longer[j] == id);
                assert(longer.contains(id));
            }
        }
    }
    assert(stepped.roads =~= target.roads);
}

impl RawMap {
    /// Marks each road of `list` as short by setting its junction tag, and hands the list
    /// back. Where the map lacks one of the roads, nothing is marked and the first such
    /// identifier is reported.
    pub fn mark_short_roads(&mut self, list: Vec<OriginalRoad>) -> (done: Result<
        Vec<OriginalRoad>,
        GraphError,
    >)
        requires
            old(self).wf(),
        ensures
            final(self).wf(),
            match done {
                Ok(marked) => {
                    &&& old(self)@.has_roads(list@)
                    &&& marked@ == list@
                    &&& final(self)@ == old(self)@.marked(list@)
                },
                Err(e) => {
                    &&& final(self)@ == old(self)@
                    &&& exists|k: int|
                        #![trigger list@[k]]
                        old(self)@.first_unknown_at(list@, k) && e == GraphError::UnknownRoad(
                            list@[k],
                        )
                },
            },
    {
        let ghost before = self@;
        let mut places: Vec<usize> = Vec::new();
        let mut k: usize = 0;
        while k < list.len()
            invariant
                self.wf(),
                self@ == before,
                k <= list.len(),
                places.len() == k,
                forall|j: int| 0 <= j < k ==> before.road_at(#[trigger] places[j] as int, list@[j]),
            decreases list.len() - k,
        {
            match self.road_position(&list[k]) {
                Some(at) => {
                    places.push(at);
                },
                None => {
                    proof {
                        assert forall|j: int| 0 <= j < list@.take(k as int).len() implies before.has_road(
                            #[trigger] list@.take(k as int)[j],
                        ) by {
                            assert(before.road_at(places[j] as int, list@[j]));
                        }
                        assert(before.first_unknown_at(list@, k as int));
                    }
                    return Err(GraphError::UnknownRoad(list[k]));
                },
            }
            k += 1;
        }
        proof {
            assert forall|j: int| 0 <= j < list@.len() implies before.has_road(#[trigger] list@[j]) by {
                assert(before.road_at(places[j] as int, list@[j]));
            }
            lemma_mark_none(before);
            assert(list@.take(0) == Seq::<OriginalRoad>::empty());
            self.lemma_wf_view();
        }
        let mut done: usize = 0;
        while done < places.len()
            invariant
                self.wf(),
                before.roads_sorted(),
                done <= places.len(),
                places.len() == list.len(),
                forall|j: int|
                    0 <= j < places.len() ==> before.road_at(#[trigger] places[j] as int, list@[j]),
                self@ == before.marked(list@.take(done as int)),
            decreases places.len() - done,
        {
            let at = places[done];
            proof {
                assert(before.road_at(places[done as int] as int, list@[done as int]));
                lemma_mark_step(before, list@, done as int, at as int);
            }
            self.mark_road_at(at);
            done += 1;
        }
        proof {
            assert(list@.take(done as int) == list@);
        }
        Ok(list)
    }
}

} // verus!
