use raw_map::classify::Heuristics;
use raw_map::geometry::{Angle, CenterLine, Distance};
use raw_map::graph::{IntersectionType, RawMap, RawRoad};
use raw_map::heuristics::{distance_heuristic, nearly_parallel};
use raw_map::ids::{NodeID, OriginalRoad};

fn line(units: u64, degrees: u16) -> Option<CenterLine> {
    Some(CenterLine::straight(Distance::from_units(units), Angle::degrees(degrees)))
}

fn map_with_intersections(list: &[(i64, IntersectionType)]) -> RawMap {
    let mut map = RawMap::new();
    for (id, kind) in list {
        assert_eq!(map.add_intersection(NodeID(*id), *kind), Ok(()));
    }
    map
}

fn add(map: &mut RawMap, way: i64, i1: i64, i2: i64, driveable: bool, trimmed: Option<CenterLine>) {
    assert_eq!(map.add_road(RawRoad::new(OriginalRoad::new(way, i1, i2), driveable, trimmed)), Ok(()));
}

/// Two three-way intersections, 10 and 20, joined by road 1 of the given length. The two
/// other roads at each of them run at right angles to each other and to the middle road.
fn dog_leg_map(middle_units: u64) -> RawMap {
    let plain = IntersectionType::Plain;
    let mut map = map_with_intersections(&[
        (10, plain),
        (11, plain),
        (12, plain),
        (20, plain),
        (21, plain),
        (22, plain),
        (23, plain),
    ]);
    add(&mut map, 1, 10, 20, true, line(middle_units, 0));
    add(&mut map, 2, 11, 10, true, line(300_000, 0));
    add(&mut map, 3, 10, 12, true, line(300_000, 270));
    add(&mut map, 4, 20, 21, true, line(300_000, 0));
    add(&mut map, 5, 22, 20, true, line(300_000, 270));
    map
}

fn middle() -> OriginalRoad {
    OriginalRoad::new(1, 10, 20)
}

#[test]
fn distance_heuristic_picks_roads_strictly_under_five_metres() {
    let plain = IntersectionType::Plain;
    let mut map = map_with_intersections(&[(1, plain), (2, plain)]);
    add(&mut map, 1, 1, 2, true, line(49_999, 0));
    add(&mut map, 2, 1, 2, true, line(50_000, 0));
    add(&mut map, 3, 1, 2, true, line(0, 0));
    add(&mut map, 4, 1, 2, true, None);
    assert!(distance_heuristic(OriginalRoad::new(1, 1, 2), &map));
    assert!(!distance_heuristic(OriginalRoad::new(2, 1, 2), &map));
    assert!(distance_heuristic(OriginalRoad::new(3, 1, 2), &map));
    assert!(!distance_heuristic(OriginalRoad::new(4, 1, 2), &map));
}

#[test]
fn is_shorter_than_takes_any_threshold() {
    let plain = IntersectionType::Plain;
    let mut map = map_with_intersections(&[(1, plain), (2, plain)]);
    add(&mut map, 1, 1, 2, true, line(70_000, 0));
    add(&mut map, 2, 1, 2, true, None);
    let id = OriginalRoad::new(1, 1, 2);
    assert!(map.is_shorter_than(id, Distance::meters(8)));
    assert!(!map.is_shorter_than(id, Distance::meters(7)));
    assert!(!map.is_shorter_than(OriginalRoad::new(2, 1, 2), Distance::meters(8)));
}

#[test]
fn fifteen_unit_road_at_a_signal_is_in_a_cluster_and_twenty_five_is_not() {
    let mut map = map_with_intersections(&[
        (1, IntersectionType::TrafficSignal),
        (2, IntersectionType::Plain),
        (3, IntersectionType::Plain),
    ]);
    add(&mut map, 1, 1, 2, true, line(150_000, 0));
    add(&mut map, 2, 1, 3, true, line(250_000, 0));
    assert_eq!(map.signal_cluster_roads(), vec![OriginalRoad::new(1, 1, 2)]);
    assert!(map.in_signal_cluster(0));
    assert!(!map.in_signal_cluster(1));
    assert_eq!(map.find_traffic_signal_clusters(), vec![OriginalRoad::new(1, 1, 2)]);
    assert!(map.get_road(&OriginalRoad::new(1, 1, 2)).osm_tags.is_junction());
    assert!(!map.get_road(&OriginalRoad::new(2, 1, 3)).osm_tags.is_junction());
}

#[test]
fn signal_cluster_threshold_is_inclusive() {
    let mut map = map_with_intersections(&[
        (1, IntersectionType::Plain),
        (2, IntersectionType::TrafficSignal),
    ]);
    add(&mut map, 1, 1, 2, true, line(200_000, 0));
    add(&mut map, 2, 1, 2, true, line(200_001, 0));
    add(&mut map, 3, 2, 1, true, line(0, 0));
    assert_eq!(
        map.signal_cluster_roads(),
        vec![OriginalRoad::new(1, 1, 2), OriginalRoad::new(3, 2, 1)]
    );
}

#[test]
fn signal_cluster_needs_a_signal_at_one_end() {
    let mut map = map_with_intersections(&[
        (1, IntersectionType::Plain),
        (2, IntersectionType::StopSign),
        (3, IntersectionType::Construction),
        (4, IntersectionType::TrafficSignal),
    ]);
    add(&mut map, 1, 1, 2, true, line(10_000, 0));
    add(&mut map, 2, 2, 3, true, line(10_000, 0));
    add(&mut map, 3, 3, 4, true, line(10_000, 0));
    add(&mut map, 4, 4, 4, true, line(10_000, 0));
    assert_eq!(
        map.signal_cluster_roads(),
        vec![OriginalRoad::new(3, 3, 4), OriginalRoad::new(4, 4, 4)]
    );
}

#[test]
fn signal_cluster_skips_tagged_roads_and_roads_without_geometry() {
    let mut map = map_with_intersections(&[
        (1, IntersectionType::TrafficSignal),
        (2, IntersectionType::TrafficSignal),
    ]);
    let mut tagged = RawRoad::new(OriginalRoad::new(1, 1, 2), true, line(10_000, 0));
    tagged.osm_tags.insert("junction", "intersection");
    assert_eq!(map.add_road(tagged), Ok(()));
    add(&mut map, 2, 1, 2, true, None);
    let mut roundabout = RawRoad::new(OriginalRoad::new(3, 1, 2), true, line(10_000, 0));
    roundabout.osm_tags.insert("junction", "roundabout");
    assert_eq!(map.add_road(roundabout), Ok(()));
    assert_eq!(map.find_traffic_signal_clusters(), vec![OriginalRoad::new(3, 1, 2)]);
    assert!(map.get_road(&OriginalRoad::new(3, 1, 2)).osm_tags.is_junction());
    assert!(!map.get_road(&OriginalRoad::new(2, 1, 2)).osm_tags.is_junction());
}

#[test]
fn signal_cluster_stays_away_from_the_border() {
    let mut map = map_with_intersections(&[
        (1, IntersectionType::TrafficSignal),
        (2, IntersectionType::Border),
        (3, IntersectionType::Plain),
    ]);
    add(&mut map, 1, 1, 2, true, line(10_000, 0));
    add(&mut map, 2, 2, 1, true, line(10_000, 0));
    add(&mut map, 3, 1, 3, true, line(10_000, 0));
    assert_eq!(map.signal_cluster_roads(), vec![OriginalRoad::new(3, 1, 3)]);
    assert!(map.is_near_border(&OriginalRoad::new(1, 1, 2)));
    assert!(!map.is_near_border(&OriginalRoad::new(3, 1, 3)));
}

#[test]
fn four_unit_road_between_two_three_ways_is_a_dog_leg() {
    let mut map = dog_leg_map(40_000);
    assert!(map.is_dog_leg_end(NodeID(10), false));
    assert!(map.is_dog_leg_end(NodeID(20), false));
    assert!(map.is_dog_leg(0, false));
    assert_eq!(map.dog_leg_roads(false), vec![middle()]);
    assert_eq!(map.find_dog_legs(), vec![middle()]);
    assert!(map.get_road(&middle()).osm_tags.is_junction());
    assert!(!map.get_road(&OriginalRoad::new(2, 11, 10)).osm_tags.is_junction());
}

#[test]
fn four_way_at_one_end_is_no_dog_leg() {
    let mut map = dog_leg_map(40_000);
    add(&mut map, 6, 20, 23, true, line(300_000, 90));
    assert!(map.is_dog_leg_end(NodeID(10), false));
    assert!(!map.is_dog_leg_end(NodeID(20), false));
    assert!(map.dog_leg_roads(false).is_empty());
    assert!(map.find_dog_legs().is_empty());
    assert!(!map.get_road(&middle()).osm_tags.is_junction());
}

#[test]
fn two_way_at_one_end_is_no_dog_leg() {
    let plain = IntersectionType::Plain;
    let mut map = map_with_intersections(&[(10, plain), (11, plain), (12, plain), (20, plain), (21, plain)]);
    add(&mut map, 1, 10, 20, true, line(40_000, 0));
    add(&mut map, 2, 11, 10, true, line(300_000, 0));
    add(&mut map, 3, 10, 12, true, line(300_000, 270));
    add(&mut map, 4, 20, 21, true, line(300_000, 0));
    assert!(map.dog_leg_roads(false).is_empty());
}

#[test]
fn dog_leg_threshold_is_inclusive() {
    assert_eq!(dog_leg_map(50_000).dog_leg_roads(false), vec![middle()]);
    assert!(dog_leg_map(50_001).dog_leg_roads(false).is_empty());
    assert_eq!(dog_leg_map(0).dog_leg_roads(false), vec![middle()]);
}

#[test]
fn dog_leg_needs_geometry() {
    let plain = IntersectionType::Plain;
    let mut map = map_with_intersections(&[(10, plain), (11, plain), (12, plain), (20, plain), (21, plain), (22, plain)]);
    add(&mut map, 1, 10, 20, true, None);
    add(&mut map, 2, 11, 10, true, line(300_000, 0));
    add(&mut map, 3, 10, 12, true, line(300_000, 270));
    add(&mut map, 4, 20, 21, true, line(300_000, 0));
    add(&mut map, 5, 22, 20, true, line(300_000, 270));
    assert!(map.dog_leg_roads(false).is_empty());
    assert!(!map.is_dog_leg(0, false));
}

#[test]
fn dog_leg_needs_driveable_roads_all_round() {
    let plain = IntersectionType::Plain;
    let mut map = map_with_intersections(&[(10, plain), (11, plain), (12, plain), (20, plain), (21, plain), (22, plain)]);
    add(&mut map, 1, 10, 20, true, line(40_000, 0));
    add(&mut map, 2, 11, 10, true, line(300_000, 0));
    add(&mut map, 3, 10, 12, true, line(300_000, 270));
    add(&mut map, 4, 20, 21, true, line(300_000, 0));
    add(&mut map, 5, 22, 20, false, line(300_000, 270));
    assert!(map.is_dog_leg_end(NodeID(10), false));
    assert!(!map.is_dog_leg_end(NodeID(20), false));
    assert!(map.dog_leg_roads(false).is_empty());
}

#[test]
fn dog_leg_itself_must_be_driveable() {
    let plain = IntersectionType::Plain;
    let mut map = map_with_intersections(&[(10, plain), (11, plain), (12, plain), (20, plain), (21, plain), (22, plain)]);
    add(&mut map, 1, 10, 20, false, line(40_000, 0));
    add(&mut map, 2, 11, 10, true, line(300_000, 0));
    add(&mut map, 3, 10, 12, true, line(300_000, 270));
    add(&mut map, 4, 20, 21, true, line(300_000, 0));
    add(&mut map, 5, 22, 20, true, line(300_000, 270));
    assert!(map.dog_leg_roads(false).is_empty());
}

#[test]
fn dog_leg_stays_away_from_the_border() {
    let plain = IntersectionType::Plain;
    // The far end of one of the side roads is on the border.
    let mut map = map_with_intersections(&[
        (10, plain),
        (11, plain),
        (12, plain),
        (20, plain),
        (21, plain),
        (22, IntersectionType::Border),
    ]);
    add(&mut map, 1, 10, 20, true, line(40_000, 0));
    add(&mut map, 2, 11, 10, true, line(300_000, 0));
    add(&mut map, 3, 10, 12, true, line(300_000, 270));
    add(&mut map, 4, 20, 21, true, line(300_000, 0));
    add(&mut map, 5, 22, 20, true, line(300_000, 270));
    assert!(map.dog_leg_roads(false).is_empty());
    // The short road itself ends on the border.
    let mut map = map_with_intersections(&[
        (10, plain),
        (11, plain),
        (12, plain),
        (20, IntersectionType::Border),
        (21, plain),
        (22, plain),
    ]);
    add(&mut map, 1, 10, 20, true, line(40_000, 0));
    add(&mut map, 2, 11, 10, true, line(300_000, 0));
    add(&mut map, 3, 10, 12, true, line(300_000, 270));
    add(&mut map, 4, 20, 21, true, line(300_000, 0));
    add(&mut map, 5, 22, 20, true, line(300_000, 270));
    assert!(map.dog_leg_roads(false).is_empty());
    assert!(map.find_dog_legs().is_empty());
}

#[test]
fn every_dog_leg_of_a_map_is_found_in_order() {
    let plain = IntersectionType::Plain;
    let mut map = map_with_intersections(&[
        (1, plain),
        (2, plain),
        (3, plain),
        (4, plain),
        (5, plain),
        (6, plain),
        (7, plain),
        (8, plain),
    ]);
    // A chain 1 - 2 ~ 3 ~ 4 - 5 with side roads at 2, 3 and 4: both 2 ~ 3 and 3 ~ 4 are
    // short and lie between three-way intersections.
    add(&mut map, 9, 3, 4, true, line(30_000, 0));
    add(&mut map, 5, 2, 3, true, line(20_000, 0));
    add(&mut map, 1, 1, 2, true, line(900_000, 0));
    add(&mut map, 2, 4, 5, true, line(900_000, 0));
    add(&mut map, 3, 2, 6, true, line(900_000, 90));
    add(&mut map, 4, 3, 7, true, line(900_000, 90));
    add(&mut map, 6, 4, 8, true, line(900_000, 90));
    assert_eq!(
        map.dog_leg_roads(false),
        vec![OriginalRoad::new(5, 2, 3), OriginalRoad::new(9, 3, 4)]
    );
}

#[test]
fn nearly_parallel_compares_the_three_roads_pair_by_pair() {
    let plain = IntersectionType::Plain;
    let mut map = map_with_intersections(&[(1, plain), (2, plain), (3, plain), (4, plain)]);
    add(&mut map, 1, 1, 2, true, line(100_000, 0));
    add(&mut map, 2, 1, 3, true, line(100_000, 20));
    add(&mut map, 3, 4, 1, true, line(100_000, 190));
    add(&mut map, 4, 1, 4, true, line(100_000, 45));
    let a = OriginalRoad::new(1, 1, 2);
    let b = OriginalRoad::new(2, 1, 3);
    let c = OriginalRoad::new(3, 4, 1);
    let d = OriginalRoad::new(4, 1, 4);
    // 0, 20 and 190 degrees: each pair is within 30 degrees, up to the way the line points.
    assert_eq!(nearly_parallel(&map, vec![a, b, c], NodeID(1)), Some(true));
    // 0 and 45 degrees are not.
    assert_eq!(nearly_parallel(&map, vec![a, b, d], NodeID(1)), Some(false));
    // 20 and 45 are, 0 and 45 are not.
    assert_eq!(nearly_parallel(&map, vec![d, b, a], NodeID(1)), Some(false));
    // Only the first three roads count.
    assert_eq!(nearly_parallel(&map, vec![a, b, c, d], NodeID(1)), Some(true));
}

#[test]
fn nearly_parallel_reads_the_end_of_the_road_at_the_intersection() {
    let plain = IntersectionType::Plain;
    let mut map = map_with_intersections(&[(1, plain), (2, plain), (3, plain), (4, plain)]);
    let bend = CenterLine::new(Distance::meters(50), Angle::degrees(0), Angle::degrees(90));
    add(&mut map, 1, 1, 2, true, Some(bend));
    add(&mut map, 2, 1, 3, true, line(100_000, 5));
    add(&mut map, 3, 1, 4, true, line(100_000, 10));
    add(&mut map, 4, 2, 3, true, line(100_000, 95));
    add(&mut map, 5, 2, 4, true, line(100_000, 100));
    let bent = OriginalRoad::new(1, 1, 2);
    // At intersection 1 the bent road starts, at 0 degrees.
    assert_eq!(
        nearly_parallel(&map, vec![bent, OriginalRoad::new(2, 1, 3), OriginalRoad::new(3, 1, 4)], NodeID(1)),
        Some(true)
    );
    // At intersection 2 it ends, at 90 degrees.
    assert_eq!(
        nearly_parallel(&map, vec![bent, OriginalRoad::new(4, 2, 3), OriginalRoad::new(5, 2, 4)], NodeID(2)),
        Some(true)
    );
    assert_eq!(
        nearly_parallel(&map, vec![bent, OriginalRoad::new(2, 1, 3), OriginalRoad::new(3, 1, 4)], NodeID(2)),
        Some(false)
    );
}

#[test]
fn nearly_parallel_has_no_answer_without_geometry() {
    let plain = IntersectionType::Plain;
    let mut map = map_with_intersections(&[(1, plain), (2, plain)]);
    add(&mut map, 1, 1, 2, true, line(100_000, 0));
    add(&mut map, 2, 1, 2, true, None);
    add(&mut map, 3, 1, 2, true, line(100_000, 0));
    let ids = vec![OriginalRoad::new(1, 1, 2), OriginalRoad::new(2, 1, 2), OriginalRoad::new(3, 1, 2)];
    assert_eq!(nearly_parallel(&map, ids, NodeID(1)), None);
    assert_eq!(nearly_parallel(&map, vec![OriginalRoad::new(2, 1, 2)], NodeID(1)), None);
}

#[test]
fn dog_leg_at_a_carriageway_split_is_spared_on_request() {
    let plain = IntersectionType::Plain;
    let mut map = map_with_intersections(&[(10, plain), (11, plain), (12, plain), (20, plain), (21, plain), (22, plain)]);
    // At intersection 10 all three roads run nearly east-west.
    add(&mut map, 1, 10, 20, true, line(40_000, 0));
    add(&mut map, 2, 11, 10, true, line(300_000, 10));
    add(&mut map, 3, 10, 12, true, line(300_000, 170));
    add(&mut map, 4, 20, 21, true, line(300_000, 0));
    add(&mut map, 5, 22, 20, true, line(300_000, 270));
    assert_eq!(map.dog_leg_roads(false), vec![middle()]);
    assert!(map.is_dog_leg_end(NodeID(10), false));
    assert!(!map.is_dog_leg_end(NodeID(10), true));
    assert!(map.is_dog_leg_end(NodeID(20), true));
    assert!(map.dog_leg_roads(true).is_empty());
    assert!(map.find_dog_legs_with(true).is_empty());
    assert!(!map.get_road(&middle()).osm_tags.is_junction());
    assert_eq!(map.find_dog_legs_with(false), vec![middle()]);
    assert!(map.get_road(&middle()).osm_tags.is_junction());
}

#[test]
fn dog_leg_between_roads_that_are_not_parallel_is_found_either_way() {
    let map = dog_leg_map(40_000);
    assert_eq!(map.dog_leg_roads(true), vec![middle()]);
    assert_eq!(map.dog_leg_roads(false), vec![middle()]);
}

#[test]
fn side_road_without_geometry_counts_as_a_split_when_splits_are_spared() {
    let plain = IntersectionType::Plain;
    let mut map = map_with_intersections(&[(10, plain), (11, plain), (12, plain), (20, plain), (21, plain), (22, plain)]);
    add(&mut map, 1, 10, 20, true, line(40_000, 0));
    add(&mut map, 2, 11, 10, true, None);
    add(&mut map, 3, 10, 12, true, line(300_000, 270));
    add(&mut map, 4, 20, 21, true, line(300_000, 0));
    add(&mut map, 5, 22, 20, true, line(300_000, 270));
    assert_eq!(map.dog_leg_roads(false), vec![middle()]);
    assert!(map.dog_leg_roads(true).is_empty());
}

#[test]
fn standard_heuristics_run_no_optional_pass() {
    let h = Heuristics::standard(true);
    assert!(h.consolidate_all);
    assert_eq!(h.distance_threshold, Distance::meters(5));
    assert!(!h.signal_clusters);
    assert!(!h.dog_legs);
    assert!(!h.spare_parallel_splits);
    assert!(!Heuristics::standard(false).consolidate_all);
}
