use libsopa::locations::{ConsistencyError, Location, Locations};
use libsopa::tags::Tags;

fn location_with_tags(locations: &mut Locations, name: &str, tags: &[&str]) -> Location {
    let mut draft = Location::new();
    draft.name = name.to_string();
    draft.tags = Tags::new_tags(tags);
    locations.push_new(draft)
}

fn score(location: &Location, preference: &Tags) -> f32 {
    let o = location.tags.overlap(preference);
    o.matched as f32 / o.total as f32
}

#[test]
fn creating_locations_and_working_with_one_location() {
    let mut locations = Locations::new();
    let mut draft = Location::new();
    draft.name = "Example".to_string();
    let location = locations.push_new(draft);
    assert_eq!(location.name, "Example".to_string());

    {
        let mut modified_location = location.clone();
        modified_location.name = "Not an Example".to_string();
        locations.push_update(modified_location);
    }

    // The original object should still contain old value
    assert_eq!(location.name, "Example".to_string());
    // But after fetching update, it should have a new value
    let new_location = locations
        .fetch_update(&location)
        .unwrap()
        .expect("There should be an update to the location");
    assert_ne!(location, new_location);
    assert_eq!(new_location.name, "Not an Example".to_string());
}

#[test]
fn fresh_record_has_no_update() {
    let mut locations = Locations::new();
    let location = location_with_tags(&mut locations, "A", &["x"]);
    assert_ne!(location.get_id(), 0);
    assert_eq!(locations.fetch_update(&location), Ok(None));
}

#[test]
fn update_by_another_writer_is_fetched() {
    let mut locations = Locations::new();
    let stale = location_with_tags(&mut locations, "A", &["x"]);
    let mut newer = stale.clone();
    newer.description = "moved".to_string();
    newer.tags.define_tag("y");
    locations.push_update(newer.clone());
    assert_eq!(locations.fetch_update(&stale), Ok(Some(newer.clone())));
    assert_eq!(locations.fetch_update(&newer), Ok(None));
}

#[test]
fn fetch_update_after_remove_is_an_error() {
    let mut locations = Locations::new();
    let location = location_with_tags(&mut locations, "A", &[]);
    assert!(locations.contains(&location));
    locations.remove(&location);
    assert!(!locations.contains(&location));
    assert_eq!(
        locations.fetch_update(&location),
        Err(ConsistencyError::NotInRegistry(location.get_id()))
    );
}

#[test]
fn remove_of_absent_record_changes_nothing() {
    let mut locations = Locations::new();
    let kept = location_with_tags(&mut locations, "A", &[]);
    let other = Location::new();
    locations.remove(&other);
    assert_eq!(locations.locations_in_random_order(), vec![kept]);
}

#[test]
fn push_new_gives_distinct_identifiers() {
    let mut locations = Locations::new();
    let a = locations.push_new_nomodify();
    let b = locations.push_new_nomodify();
    let c = locations.push_new(a.clone());
    assert_ne!(a.get_id(), b.get_id());
    assert_ne!(a.get_id(), c.get_id());
    assert_ne!(b.get_id(), c.get_id());
    assert_eq!(locations.locations_in_random_order().len(), 3);
    assert_eq!(a.name, "");
}

#[test]
fn push_update_of_unknown_record_adds_it() {
    let mut locations = Locations::new();
    let location = Location::new();
    locations.push_update(location.clone());
    assert_eq!(locations.locations_in_random_order(), vec![location]);
}

#[test]
fn ranking_example_scenario() {
    let mut locations = Locations::new();
    let l1 = location_with_tags(&mut locations, "L1", &["male", "female", "adult"]);
    let l2 = location_with_tags(&mut locations, "L2", &["male", "female", "hostel", "adult"]);
    let l3 = location_with_tags(&mut locations, "L3", &["male", "female", "adult", "kid"]);
    let preference = Tags::new_tags(&["adult", "kid"]);
    assert_eq!(score(&l1, &preference), 0.5);
    assert_eq!(score(&l2, &preference), 0.5);
    assert_eq!(score(&l3, &preference), 1.0);
    // Equal scores keep the order in which the records were stored.
    let ranked = locations.all_locations_in_order(&preference);
    assert_eq!(ranked, vec![l3, l1, l2]);
}

#[test]
fn ranking_is_an_ordered_permutation() {
    let mut locations = Locations::new();
    location_with_tags(&mut locations, "A", &["a"]);
    location_with_tags(&mut locations, "B", &["a", "b", "c"]);
    location_with_tags(&mut locations, "C", &[]);
    location_with_tags(&mut locations, "D", &["b", "c"]);
    location_with_tags(&mut locations, "E", &["c"]);
    let preference = Tags::new_tags(&["a", "b", "c"]);
    let ranked = locations.all_locations_in_order(&preference);
    let all = locations.locations_in_random_order();
    assert_eq!(ranked.len(), all.len());
    for l in all.iter() {
        assert_eq!(ranked.iter().filter(|r| *r == l).count(), 1);
    }
    for w in ranked.windows(2) {
        assert!(score(&w[0], &preference) >= score(&w[1], &preference));
    }
    let names: Vec<&str> = ranked.iter().map(|l| l.name.as_str()).collect();
    assert_eq!(names, vec!["B", "D", "A", "E", "C"]);
}

#[test]
fn ranking_with_empty_preference_keeps_stored_order() {
    let mut locations = Locations::new();
    let a = location_with_tags(&mut locations, "A", &[]);
    let b = location_with_tags(&mut locations, "B", &["x"]);
    assert_eq!(locations.all_locations_in_order(&Tags::new()), vec![a, b]);
}

#[test]
fn build_tags_is_the_union() {
    let mut locations = Locations::new();
    location_with_tags(&mut locations, "A", &["a", "b"]);
    location_with_tags(&mut locations, "B", &["b", "c"]);
    assert!(locations.build_tags() == Tags::new_tags(&["a", "b", "c"]));
    assert!(Locations::new().build_tags() == Tags::new());
}
