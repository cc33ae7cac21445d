use raw_map::geometry::{Angle, CenterLine, Distance};

#[test]
fn whole_metres_are_ten_thousand_units() {
    assert_eq!(Distance::meters(5).to_units(), 50_000);
    assert_eq!(Distance::meters(0).to_units(), 0);
    assert_eq!(Distance::meters(20), Distance::from_units(200_000));
    assert_eq!(Distance::meters(u32::MAX).to_units(), 42_949_672_950_000);
}

#[test]
fn distances_compare_by_length() {
    let five = Distance::meters(5);
    let just_under = Distance::from_units(49_999);
    assert!(just_under.shorter_than(&five));
    assert!(!five.shorter_than(&five));
    assert!(five.at_most(&five));
    assert!(!Distance::from_units(50_001).at_most(&five));
    assert!(just_under < five);
}

#[test]
fn angles_leave_out_full_turns() {
    assert_eq!(Angle::degrees(0).to_units(), 0);
    assert_eq!(Angle::degrees(90).to_units(), 90_000);
    assert_eq!(Angle::degrees(360).to_units(), 0);
    assert_eq!(Angle::degrees(725).to_units(), 5_000);
    assert_eq!(Angle::from_units(360_001).to_units(), 1);
    assert_eq!(Angle::from_units(359_999).to_units(), 359_999);
}

#[test]
fn opposite_turns_by_half_a_turn() {
    assert_eq!(Angle::degrees(0).opposite(), Angle::degrees(180));
    assert_eq!(Angle::degrees(270).opposite(), Angle::degrees(90));
    assert_eq!(Angle::from_units(180_000).opposite().to_units(), 0);
    assert_eq!(Angle::from_units(359_999).opposite().to_units(), 179_999);
}

#[test]
fn approx_eq_takes_the_shorter_way_round() {
    let a = Angle::degrees(350);
    let b = Angle::degrees(10);
    // The two directions are 20 degrees apart across the zero direction.
    assert!(a.approx_eq(&b, 20_001));
    assert!(b.approx_eq(&a, 20_001));
    assert!(!a.approx_eq(&b, 20_000));
    assert!(!b.approx_eq(&a, 20_000));
    assert!(Angle::degrees(45).approx_eq(&Angle::degrees(45), 1));
    assert!(!Angle::degrees(45).approx_eq(&Angle::degrees(45), 0));
    // Opposite directions are half a turn apart.
    assert!(!Angle::degrees(0).approx_eq(&Angle::degrees(180), 180_000));
    assert!(Angle::degrees(0).approx_eq(&Angle::degrees(180), 180_001));
}

#[test]
fn approx_parallel_ignores_which_way_a_line_points() {
    let east = Angle::degrees(0);
    let west = Angle::degrees(180);
    let north = Angle::degrees(90);
    assert!(east.approx_parallel(&west, 30_000));
    assert!(east.approx_parallel(&east, 30_000));
    assert!(!east.approx_parallel(&north, 30_000));
    assert!(Angle::degrees(10).approx_parallel(&Angle::degrees(200), 30_000));
    assert!(Angle::degrees(10).approx_parallel(&Angle::degrees(39), 30_000));
    assert!(!Angle::degrees(10).approx_parallel(&Angle::degrees(40), 30_000));
    assert!(!Angle::degrees(10).approx_parallel(&Angle::degrees(220), 30_000));
}

#[test]
fn center_line_keeps_what_it_was_made_of() {
    let line = CenterLine::new(Distance::meters(7), Angle::degrees(10), Angle::degrees(20));
    assert_eq!(line.length(), Distance::meters(7));
    assert_eq!(line.first_angle, Angle::degrees(10));
    assert_eq!(line.last_angle, Angle::degrees(20));
    let straight = CenterLine::straight(Distance::meters(3), Angle::degrees(90));
    assert_eq!(straight.first_angle, straight.last_angle);
    assert_eq!(straight.length().to_units(), 30_000);
}
