use libsopa::edit::LocationEditManager;
use libsopa::locations::{ConsistencyError, Location, Locations};
use libsopa::tags::{Tag, Tags};

#[test]
fn edit_session_stages_commits_and_clears() {
    let mut locations = Locations::new();
    let created =
        LocationEditManager::request_new_location(&mut locations, "New".to_string(), "Street".to_string());
    assert_eq!(created.name, "New");
    assert_eq!(created.address, "Street");

    let mut session = LocationEditManager::init(created.clone());
    let mut changed = session.get_location_under_edit();
    changed.description = "staged".to_string();
    session.stage_location_changes(changed.clone());
    assert_eq!(session.get_location_under_edit(), changed);

    // Dropping the staged change brings back the stored version.
    assert_eq!(session.clear_location_changes(&locations), Ok(()));
    assert_eq!(session.get_location_under_edit(), created);

    session.stage_location_changes(changed.clone());
    session.commit_location_changes(&mut locations);
    assert_eq!(locations.fetch_update(&changed), Ok(None));
    assert_eq!(locations.fetch_update(&created), Ok(Some(changed)));
}

#[test]
fn clearing_a_removed_location_is_an_error() {
    let mut locations = Locations::new();
    let created = locations.push_new_nomodify();
    let mut session = LocationEditManager::init(created.clone());
    locations.remove(&created);
    assert_eq!(
        session.clear_location_changes(&locations),
        Err(ConsistencyError::NotInRegistry(created.get_id()))
    );
    assert_eq!(session.get_location_under_edit(), created);
}

#[test]
fn registry_from_records_keeps_the_last_of_each_identifier() {
    let a = Location::new();
    let mut a2 = a.clone();
    a2.name = "second".to_string();
    let b = Location::new();
    let locations = Locations::from_locations(vec![a, b.clone(), a2.clone()]);
    assert_eq!(locations.locations_in_random_order(), vec![a2, b]);
}

#[test]
fn tags_from_tag_list() {
    let tags = Tags::from_tags(vec![
        Tag::new("a".to_string()),
        Tag::new("b".to_string()),
        Tag::new("a".to_string()),
    ]);
    assert!(tags == Tags::new_tags(&["a", "b"]));
}
