use raw_map::tags::{Tags, INTERSECTION, JUNCTION};

#[test]
fn new_tags_are_empty() {
    let tags = Tags::new();
    assert_eq!(tags.len(), 0);
    assert!(!tags.contains_key("highway"));
    assert!(tags.get("highway").is_none());
    assert!(!tags.is("highway", "residential"));
    assert!(!tags.is_junction());
}

#[test]
fn insert_sets_and_replaces() {
    let mut tags = Tags::new();
    tags.insert("highway", "residential");
    tags.insert("name", "Main Street");
    assert_eq!(tags.len(), 2);
    assert!(tags.is("highway", "residential"));
    assert_eq!(tags.get("name").map(|v| v.as_str()), Some("Main Street"));
    tags.insert("highway", "primary");
    assert_eq!(tags.len(), 2);
    assert!(tags.is("highway", "primary"));
    assert!(!tags.is("highway", "residential"));
    assert!(tags.contains_key("name"));
    assert!(!tags.contains_key("Name"));
}

#[test]
fn junction_tag_is_recognised_only_with_its_value() {
    assert_eq!(JUNCTION, "junction");
    assert_eq!(INTERSECTION, "intersection");
    let mut tags = Tags::new();
    tags.insert("junction", "roundabout");
    assert!(!tags.is_junction());
    tags.insert("junction", "intersection");
    assert!(tags.is_junction());
    tags.insert("junction", "intersection");
    assert!(tags.is_junction());
    assert_eq!(tags.len(), 1);
}

#[test]
fn duplicate_holds_the_same_tags() {
    let mut tags = Tags::new();
    tags.insert("a", "1");
    tags.insert("b", "2");
    let mut copy = tags.duplicate();
    assert_eq!(copy.len(), 2);
    assert!(copy.is("a", "1"));
    assert!(copy.is("b", "2"));
    copy.insert("a", "3");
    assert!(tags.is("a", "1"));
    assert!(copy.is("a", "3"));
}
