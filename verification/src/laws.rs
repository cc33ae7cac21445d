//! What holds of the heuristics and of marking, whatever the map.

use vstd::prelude::*;
use crate::classify::Heuristics;
use crate::commit::lemma_mark_road_idempotent;
use crate::graph::{
    lemma_connection_is_road, lemma_intersection_position_unique, lemma_road_is_connection,
    lemma_road_position_unique, MapView, RoadView,
};
use crate::heuristics::lemma_select_contains;
use crate::ids::{NodeID, OriginalRoad};

verus! {

/// A road that the length test picks has a trimmed center line, and that line is strictly
/// shorter than the threshold.
pub proof fn lemma_short_road_has_short_geometry(r: RoadView, threshold: nat)
    requires
        r.shorter_than(threshold),
    ensures
        r.trimmed is Some,
        r.trimmed->0.length@ < threshold,
{
}

/// A road without a trimmed center line is picked by none of the tests that ask for a
/// length.
pub proof fn lemma_no_geometry_no_length_pick(
    m: MapView,
    r: RoadView,
    threshold: nat,
    spare_splits: bool,
)
    requires
        r.trimmed is None,
    ensures
        !r.shorter_than(threshold),
        !m.in_signal_cluster(r),
        !m.is_dog_leg(r, spare_splits),
{
}

/// A road that ends at the edge of the mapped area is neither taken for a short road next to
/// a traffic signal nor for a dog leg, so neither search returns it.
pub proof fn lemma_border_road_not_picked(m: MapView, at: int, spare_splits: bool)
    requires
        m.roads_sorted(),
        0 <= at < m.roads.len(),
        m.near_border(m.roads[at].id),
    ensures
        !m.in_signal_cluster(m.roads[at]),
        !m.is_dog_leg(m.roads[at], spare_splits),
        !m.signal_cluster_roads().contains(m.roads[at].id),
        !m.dog_leg_roads(spare_splits).contains(m.roads[at].id),
{
    let r = m.roads[at];
    if m.is_dog_leg(r, spare_splits) {
        let c = m.roads_per_intersection(r.id.i1);
        lemma_road_is_connection(m, at, r.id.i1);
        let k = choose|k: int| 0 <= k < c.len() && c[k] == r.id;
        assert(!m.near_border(c[k]));
    }
    lemma_select_contains(m.roads, m.picks_signal_cluster(), r.id);
    if m.signal_cluster_roads().contains(r.id) {
        let other = choose|other: int|
            0 <= other < m.roads.len() && (#[trigger] m.roads[other]).id == r.id
                && m.picks_signal_cluster()(m.roads[other]);
        lemma_road_position_unique(m, at, other, r.id);
    }
    lemma_select_contains(m.roads, m.picks_dog_leg(spare_splits), r.id);
    if m.dog_leg_roads(spare_splits).contains(r.id) {
        let other = choose|other: int|
            0 <= other < m.roads.len() && (#[trigger] m.roads[other]).id == r.id
                && m.picks_dog_leg(spare_splits)(m.roads[other]);
        lemma_road_position_unique(m, at, other, r.id);
    }
}

/// Every road named by hand is among the short roads, whatever the heuristics make of it.
pub proof fn lemma_overrides_flagged(
    m: MapView,
    h: Heuristics,
    overrides: Seq<OriginalRoad>,
    id: OriginalRoad,
)
    requires
        overrides.contains(id),
    ensures
        m.flagged(h, overrides).contains(id),
{
    let k = choose|k: int| 0 <= k < overrides.len() && overrides[k] == id;
    let all = m.flagged(h, overrides);
    assert(all[m.detected(h).len() + k] == id);
}

/// Marking the same roads a second time changes nothing.
pub proof fn lemma_marking_idempotent(m: MapView, ids: Seq<OriginalRoad>)
    ensures
        m.marked(ids).marked(ids) == m.marked(ids),
{
    let once = m.marked(ids);
    let twice = once.marked(ids);
    assert forall|at: int| 0 <= at < m.roads.len() implies twice.roads[at] == once.roads[at] by {
        lemma_mark_road_idempotent(m.roads[at]);
    }
    assert(twice.roads =~= once.roads);
}

/// Marking changes the tags of roads and nothing else: the roads keep their identifiers,
/// their order, whether cars can drive along them and their center lines, and the
/// intersections stay as they are.
pub proof fn lemma_marking_keeps_shape(m: MapView, ids: Seq<OriginalRoad>)
    ensures
        m.marked(ids).intersections == m.intersections,
        m.marked(ids).roads.len() == m.roads.len(),
        m.marked(ids).road_ids() == m.road_ids(),
        forall|at: int|
            #![trigger m.marked(ids).roads[at]]
            0 <= at < m.roads.len() ==> {
                &&& m.marked(ids).roads[at].id == m.roads[at].id
                &&& m.marked(ids).roads[at].driveable == m.roads[at].driveable
                &&& m.marked(ids).roads[at].trimmed == m.roads[at].trimmed
                &&& m.marked(ids).roads[at].is_junction() == (m.roads[at].is_junction()
                    || ids.contains(m.roads[at].id))
            },
        m.roads_sorted() ==> m.marked(ids).roads_sorted(),
        m.wf() ==> m.marked(ids).wf(),
{
    let after = m.marked(ids);
    assert(after.road_ids() =~= m.road_ids());
    if m.roads_sorted() {
        assert forall|i: int, j: int| 0 <= i < j < after.roads.len() implies (
        #[trigger] after.roads[i]).id.before((#[trigger] after.roads[j]).id) by {
            assert(m.roads[i].id.before(m.roads[j].id));
        }
    }
    if m.wf() {
        assert forall|i: int| 0 <= i < after.roads.len() implies after.has_intersection(
            (#[trigger] after.roads[i]).id.i1,
        ) && after.has_intersection(after.roads[i].id.i2) by {
            assert(m.has_intersection(m.roads[i].id.i1));
            assert(m.has_intersection(m.roads[i].id.i2));
            assert forall|n: NodeID| m.has_intersection(n) implies after.has_intersection(n) by {
                let k = m.intersection_index(n);
                assert(after.intersection_at(k, n));
            }
        }
    }
}

/// After marking, a road of the map is found where it was.
proof fn lemma_marking_keeps_positions(m: MapView, ids: Seq<OriginalRoad>, id: OriginalRoad)
    requires
        m.roads_sorted(),
        m.has_road(id),
    ensures
        m.marked(ids).has_road(id),
        m.marked(ids).road_index(id) == m.road_index(id),
{
    let after = m.marked(ids);
    lemma_marking_keeps_shape(m, ids);
    let at = m.road_index(id);
    assert(m.road_at(at, id));
    assert(after.road_at(at, id));
    let found = after.road_index(id);
    assert(after.road_at(found, id));
    assert(m.road_at(found, id));
    lemma_road_position_unique(m, at, found, id);
}

/// After marking, an intersection of the map is found where it was.
proof fn lemma_marking_keeps_intersection(m: MapView, ids: Seq<OriginalRoad>, n: NodeID)
    requires
        m.intersections_sorted(),
        m.has_intersection(n),
    ensures
        m.marked(ids).intersection(n) == m.intersection(n),
{
    let after = m.marked(ids);
    let at = m.intersection_index(n);
    assert(m.intersection_at(at, n));
    assert(after.intersection_at(at, n));
    let found = after.intersection_index(n);
    assert(after.intersection_at(found, n));
    assert(m.intersection_at(found, n));
    lemma_intersection_position_unique(m, at, found, n);
}

/// After marking, the road at a position ends at the edge of the map, or at a traffic
/// signal, if and only if it did before.
proof fn lemma_marking_keeps_borders(m: MapView, ids: Seq<OriginalRoad>, at: int)
    requires
        m.wf(),
        0 <= at < m.roads.len(),
    ensures
        m.marked(ids).near_border(m.roads[at].id) == m.near_border(m.roads[at].id),
        m.marked(ids).is_signalized(m.roads[at].id.i1) == m.is_signalized(m.roads[at].id.i1),
        m.marked(ids).is_signalized(m.roads[at].id.i2) == m.is_signalized(m.roads[at].id.i2),
{
    assert(m.has_intersection(m.roads[at].id.i1));
    assert(m.has_intersection(m.roads[at].id.i2));
    lemma_marking_keeps_intersection(m, ids, m.roads[at].id.i1);
    lemma_marking_keeps_intersection(m, ids, m.roads[at].id.i2);
}

/// After marking, the same intersections can be the end of a dog leg.
proof fn lemma_marking_keeps_dog_leg_ends(
    m: MapView,
    ids: Seq<OriginalRoad>,
    i: NodeID,
    spare_splits: bool,
)
    requires
        m.wf(),
    ensures
        m.marked(ids).dog_leg_end(i, spare_splits) == m.dog_leg_end(i, spare_splits),
{
    let after = m.marked(ids);
    lemma_marking_keeps_shape(m, ids);
    let c = m.roads_per_intersection(i);
    assert(after.roads_per_intersection(i) == c);
    assert forall|k: int| 0 <= k < c.len() implies {
        &&& after.road(#[trigger] c[k]).driveable == m.road(c[k]).driveable
        &&& after.road(c[k]).trimmed == m.road(c[k]).trimmed
        &&& after.road(c[k]).id == m.road(c[k]).id
        &&& after.near_border(c[k]) == m.near_border(c[k])
    } by {
        lemma_connection_is_road(m, i, k);
        lemma_marking_keeps_positions(m, ids, c[k]);
        let at = m.road_index(c[k]);
        assert(m.road_at(at, c[k]));
        lemma_marking_keeps_borders(m, ids, at);
    }
    assert(after.all_driveable_inland(c) == m.all_driveable_inland(c)) by {
        if m.all_driveable_inland(c) {
            assert forall|k: int| 0 <= k < c.len() implies after.road(#[trigger] c[k]).driveable
                && !after.near_border(c[k]) by {
                assert(m.road(c[k]).driveable && !m.near_border(c[k]));
            }
        }
        if after.all_driveable_inland(c) {
            assert forall|k: int| 0 <= k < c.len() implies m.road(#[trigger] c[k]).driveable
                && !m.near_border(c[k]) by {
                assert(after.road(c[k]).driveable && !after.near_border(c[k]));
            }
        }
    }
    if c.len() == 3 {
        assert(after.all_have_geometry(c) == m.all_have_geometry(c)) by {
            if m.all_have_geometry(c) {
                assert forall|k: int| 0 <= k < c.len() implies after.road(
                    #[trigger] c[k],
                ).trimmed is Some by {
                    assert(m.road(c[k]).trimmed is Some);
                }
            }
            if after.all_have_geometry(c) {
                assert forall|k: int| 0 <= k < c.len() implies m.road(
                    #[trigger] c[k],
                ).trimmed is Some by {
                    assert(after.road(c[k]).trimmed is Some);
                }
            }
        }
        assert(after.road(c[0]).angle_at(i) == m.road(c[0]).angle_at(i));
        assert(after.road(c[1]).angle_at(i) == m.road(c[1]).angle_at(i));
        assert(after.road(c[2]).angle_at(i) == m.road(c[2]).angle_at(i));
        assert(after.nearly_parallel(c, i) == m.nearly_parallel(c, i));
    }
}

/// What the tests make of a road after marking: the first pass picks it if it did before or
/// if the road was marked; the other two pick it only if they did before.
proof fn lemma_picks_after_marking(m: MapView, h: Heuristics, ids: Seq<OriginalRoad>, at: int)
    requires
        m.wf(),
        0 <= at < m.roads.len(),
    ensures
        MapView::picks_tagged_or_short(h)(m.marked(ids).roads[at]) == (
        MapView::picks_tagged_or_short(h)(m.roads[at]) || ids.contains(m.roads[at].id)),
        m.marked(ids).in_signal_cluster(m.marked(ids).roads[at]) ==> m.in_signal_cluster(
            m.roads[at],
        ),
        m.marked(ids).is_dog_leg(m.marked(ids).roads[at], h.spare_parallel_splits) == m.is_dog_leg(
            m.roads[at],
            h.spare_parallel_splits,
        ),
{
    let after = m.marked(ids);
    lemma_marking_keeps_shape(m, ids);
    assert(after.roads[at].id == m.roads[at].id);
    lemma_marking_keeps_borders(m, ids, at);
    lemma_marking_keeps_dog_leg_ends(m, ids, m.roads[at].id.i1, h.spare_parallel_splits);
    lemma_marking_keeps_dog_leg_ends(m, ids, m.roads[at].id.i2, h.spare_parallel_splits);
}

/// What is in one of two lists put one after the other is in the whole, and nothing else.
proof fn lemma_concat_contains(a: Seq<OriginalRoad>, b: Seq<OriginalRoad>, id: OriginalRoad)
    ensures
        (a + b).contains(id) <==> a.contains(id) || b.contains(id),
{
    if a.contains(id) {
        let k = choose|k: int| 0 <= k < a.len() && a[k] == id;
        assert((a + b)[k] == id);
    }
    if b.contains(id) {
        let k = choose|k: int| 0 <= k < b.len() && b[k] == id;
        assert((a + b)[a.len() + k] == id);
    }
    if (a + b).contains(id) {
        let k = choose|k: int| 0 <= k < (a + b).len() && (a + b)[k] == id;
        if k < a.len() {
            assert(a[k] == id);
        } else {
            assert(b[k - a.len()] == id);
        }
    }
}

/// Whether `id` is among the short roads of `m`, said test by test.
spec fn flagged_by_some_test(
    m: MapView,
    h: Heuristics,
    overrides: Seq<OriginalRoad>,
    id: OriginalRoad,
) -> bool {
    ||| m.tagged_or_short_roads(h).contains(id)
    ||| (h.signal_clusters && m.signal_cluster_roads().contains(id))
    ||| (h.dog_legs && m.dog_leg_roads(h.spare_parallel_splits).contains(id))
    ||| overrides.contains(id)
}

/// A road is among the short roads if and only if one of the tests that run picks it, or it
/// is named by hand.
proof fn lemma_flagged_contains(
    m: MapView,
    h: Heuristics,
    overrides: Seq<OriginalRoad>,
    id: OriginalRoad,
)
    ensures
        m.flagged(h, overrides).contains(id) == flagged_by_some_test(m, h, overrides, id),
{
    let signals = if h.signal_clusters {
        m.signal_cluster_roads()
    } else {
        Seq::empty()
    };
    let legs = if h.dog_legs {
        m.dog_leg_roads(h.spare_parallel_splits)
    } else {
        Seq::empty()
    };
    lemma_concat_contains(m.detected(h), overrides, id);
    lemma_concat_contains(m.tagged_or_short_roads(h), m.optional_roads(h), id);
    lemma_concat_contains(signals, legs, id);
}

/// Finding the short roads again, on the map as the first run left it and with the same
/// roads named by hand, gives the same set of roads, and marking them changes nothing.
pub proof fn lemma_second_run_changes_nothing(
    m: MapView,
    h: Heuristics,
    overrides: Seq<OriginalRoad>,
)
    requires
        m.wf(),
    ensures
        ({
            let first = m.flagged(h, overrides);
            let after = m.marked(first);
            let second = after.flagged(h, overrides);
            &&& second.to_set() == first.to_set()
            &&& after.marked(second) == after
        }),
{
    let first = m.flagged(h, overrides);
    let after = m.marked(first);
    let second = after.flagged(h, overrides);
    let spare = h.spare_parallel_splits;
    lemma_marking_keeps_shape(m, first);
    assert forall|id: OriginalRoad| second.contains(id) == first.contains(id) by {
        lemma_flagged_contains(m, h, overrides, id);
        lemma_flagged_contains(after, h, overrides, id);
        lemma_select_contains(m.roads, MapView::picks_tagged_or_short(h), id);
        lemma_select_contains(m.roads, m.picks_signal_cluster(), id);
        lemma_select_contains(m.roads, m.picks_dog_leg(spare), id);
        lemma_select_contains(after.roads, MapView::picks_tagged_or_short(h), id);
        lemma_select_contains(after.roads, after.picks_signal_cluster(), id);
        lemma_select_contains(after.roads, after.picks_dog_leg(spare), id);
        if second.contains(id) && !overrides.contains(id) {
            let at = choose|at: int|
                0 <= at < after.roads.len() && (#[trigger] after.roads[at]).id == id && (
                MapView::picks_tagged_or_short(h)(after.roads[at]) || (h.signal_clusters
                    && after.picks_signal_cluster()(after.roads[at])) || (h.dog_legs
                    && after.picks_dog_leg(spare)(after.roads[at])));
            lemma_picks_after_marking(m, h, first, at);
            assert(m.roads[at].id == id);
        }
        if first.contains(id) && !overrides.contains(id) {
            let at = choose|at: int|
                0 <= at < m.roads.len() && (#[trigger] m.roads[at]).id == id && (
                MapView::picks_tagged_or_short(h)(m.roads[at]) || (h.signal_clusters
                    && m.picks_signal_cluster()(m.roads[at])) || (h.dog_legs && m.picks_dog_leg(
                    spare,
                )(m.roads[at])));
            lemma_picks_after_marking(m, h, first, at);
            assert(after.roads[at].id == id);
            assert(MapView::picks_tagged_or_short(h)(after.roads[at]));
        }
    }
    assert(second.to_set() =~= first.to_set());
    assert forall|at: int| 0 <= at < after.roads.len() implies after.marked(second).roads[at]
        == after.roads[at] by {
        if second.contains(after.roads[at].id) {
            assert(first.contains(m.roads[at].id));
            lemma_mark_road_idempotent(m.roads[at]);
        }
    }
    assert(after.marked(second).roads =~= after.roads);
}

} // verus!
