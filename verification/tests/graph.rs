use raw_map::geometry::{Angle, CenterLine, Distance};
use raw_map::graph::{GraphError, IntersectionType, RawIntersection, RawMap, RawRoad};
use raw_map::ids::{NodeID, OriginalRoad, WayID};

fn plain_road(way: i64, i1: i64, i2: i64) -> RawRoad {
    let line = CenterLine::straight(Distance::meters(100), Angle::degrees(0));
    RawRoad::new(OriginalRoad::new(way, i1, i2), true, Some(line))
}

fn three_intersections() -> RawMap {
    let mut map = RawMap::new();
    assert_eq!(map.add_intersection(NodeID(3), IntersectionType::Plain), Ok(()));
    assert_eq!(map.add_intersection(NodeID(1), IntersectionType::TrafficSignal), Ok(()));
    assert_eq!(map.add_intersection(NodeID(2), IntersectionType::Border), Ok(()));
    map
}

#[test]
fn road_identifiers_are_ordered_by_way_then_ends() {
    let a = OriginalRoad::new(1, 9, 9);
    let b = OriginalRoad::new(2, 0, 0);
    let c = OriginalRoad::new(2, 0, 1);
    let d = OriginalRoad::new(2, 1, 0);
    assert!(a.precedes(&b));
    assert!(b.precedes(&c));
    assert!(c.precedes(&d));
    assert!(!d.precedes(&c));
    assert!(!a.precedes(&a));
    assert!(a < b && b < c && c < d);
    assert!(NodeID(-5).precedes(&NodeID(3)));
    assert!(!NodeID(3).precedes(&NodeID(3)));
    assert_eq!(a.osm_way_id, WayID(1));
    assert_eq!(a.i1, NodeID(9));
}

#[test]
fn new_map_is_empty() {
    let map = RawMap::new();
    assert_eq!(map.num_roads(), 0);
    assert_eq!(map.num_intersections(), 0);
    assert!(map.road_ids().is_empty());
    assert!(map.road(&OriginalRoad::new(1, 1, 2)).is_none());
    assert!(map.intersection(&NodeID(1)).is_none());
    assert!(map.roads_per_intersection(NodeID(1)).is_empty());
}

#[test]
fn intersections_are_found_by_identifier() {
    let map = three_intersections();
    assert_eq!(map.num_intersections(), 3);
    assert_eq!(
        map.intersection(&NodeID(1)),
        Some(RawIntersection::new(NodeID(1), IntersectionType::TrafficSignal))
    );
    assert_eq!(map.get_intersection(&NodeID(3)).intersection_type, IntersectionType::Plain);
    assert!(map.is_border(&NodeID(2)));
    assert!(!map.is_border(&NodeID(1)));
    assert!(map.get_intersection(&NodeID(1)).is_traffic_signal());
    assert!(!map.get_intersection(&NodeID(2)).is_traffic_signal());
    assert!(map.intersection(&NodeID(4)).is_none());
    assert_eq!(map.intersection_position(&NodeID(1)), Some(0));
    assert_eq!(map.intersection_position(&NodeID(2)), Some(1));
    assert_eq!(map.intersection_position(&NodeID(3)), Some(2));
    assert_eq!(map.intersection_position(&NodeID(0)), None);
}

#[test]
fn second_intersection_of_one_identifier_is_refused() {
    let mut map = three_intersections();
    assert_eq!(
        map.add_intersection(NodeID(1), IntersectionType::Plain),
        Err(GraphError::DuplicateIntersection(NodeID(1)))
    );
    assert_eq!(map.num_intersections(), 3);
    assert!(map.get_intersection(&NodeID(1)).is_traffic_signal());
}

#[test]
fn roads_stand_in_the_order_of_their_identifiers() {
    let mut map = three_intersections();
    assert_eq!(map.add_road(plain_road(7, 2, 3)), Ok(()));
    assert_eq!(map.add_road(plain_road(5, 1, 3)), Ok(()));
    assert_eq!(map.add_road(plain_road(7, 1, 2)), Ok(()));
    assert_eq!(map.add_road(plain_road(6, 3, 1)), Ok(()));
    assert_eq!(
        map.road_ids(),
        vec![
            OriginalRoad::new(5, 1, 3),
            OriginalRoad::new(6, 3, 1),
            OriginalRoad::new(7, 1, 2),
            OriginalRoad::new(7, 2, 3),
        ]
    );
    assert_eq!(map.num_roads(), 4);
    assert_eq!(map.road_position(&OriginalRoad::new(7, 1, 2)), Some(2));
    assert_eq!(map.road_position(&OriginalRoad::new(7, 1, 3)), None);
    assert_eq!(map.road_at(1).id, OriginalRoad::new(6, 3, 1));
    assert_eq!(map.get_road(&OriginalRoad::new(5, 1, 3)).id, OriginalRoad::new(5, 1, 3));
}

#[test]
fn road_that_is_already_there_is_refused() {
    let mut map = three_intersections();
    assert_eq!(map.add_road(plain_road(5, 1, 3)), Ok(()));
    assert_eq!(
        map.add_road(plain_road(5, 1, 3)),
        Err(GraphError::DuplicateRoad(OriginalRoad::new(5, 1, 3)))
    );
    assert_eq!(map.num_roads(), 1);
}

#[test]
fn road_to_a_missing_intersection_is_refused() {
    let mut map = three_intersections();
    assert_eq!(
        map.add_road(plain_road(5, 8, 9)),
        Err(GraphError::UnknownIntersection(NodeID(8)))
    );
    assert_eq!(
        map.add_road(plain_road(5, 1, 9)),
        Err(GraphError::UnknownIntersection(NodeID(9)))
    );
    assert_eq!(map.num_roads(), 0);
}

#[test]
fn roads_per_intersection_follows_the_order_of_the_map() {
    let mut map = three_intersections();
    assert_eq!(map.add_road(plain_road(7, 2, 3)), Ok(()));
    assert_eq!(map.add_road(plain_road(5, 1, 3)), Ok(()));
    assert_eq!(map.add_road(plain_road(6, 1, 2)), Ok(()));
    assert_eq!(
        map.roads_per_intersection(NodeID(3)),
        vec![OriginalRoad::new(5, 1, 3), OriginalRoad::new(7, 2, 3)]
    );
    assert_eq!(
        map.roads_per_intersection(NodeID(1)),
        vec![OriginalRoad::new(5, 1, 3), OriginalRoad::new(6, 1, 2)]
    );
    assert!(map.roads_per_intersection(NodeID(4)).is_empty());
}

#[test]
fn loop_road_counts_once_at_its_intersection() {
    let mut map = three_intersections();
    assert_eq!(map.add_road(plain_road(5, 1, 1)), Ok(()));
    assert_eq!(map.roads_per_intersection(NodeID(1)), vec![OriginalRoad::new(5, 1, 1)]);
}

#[test]
fn trimmed_geometry_is_what_the_road_holds() {
    let mut map = three_intersections();
    let line = CenterLine::new(Distance::from_units(12_345), Angle::degrees(10), Angle::degrees(20));
    let with = OriginalRoad::new(5, 1, 3);
    let without = OriginalRoad::new(6, 1, 3);
    assert_eq!(map.add_road(RawRoad::new(with, true, Some(line))), Ok(()));
    assert_eq!(map.add_road(RawRoad::new(without, false, None)), Ok(()));
    assert_eq!(map.trimmed_road_geometry(with), Some(line));
    assert_eq!(map.trimmed_road_geometry(without), None);
    assert!(map.get_road(&with).is_driveable());
    assert!(!map.get_road(&without).is_driveable());
}

#[test]
fn mark_road_at_sets_the_junction_tag_of_that_road_only() {
    let mut map = three_intersections();
    assert_eq!(map.add_road(plain_road(5, 1, 3)), Ok(()));
    assert_eq!(map.add_road(plain_road(6, 1, 3)), Ok(()));
    map.mark_road_at(1);
    assert!(!map.road_at(0).osm_tags.is_junction());
    assert!(map.road_at(1).osm_tags.is("junction", "intersection"));
    assert_eq!(map.road_at(1).id, OriginalRoad::new(6, 1, 3));
}
