use libsopa::catalogue::{
    get_all_supported_tags, get_all_supported_tags_of_group, get_all_supported_tags_without_group,
    TagGroup,
};
use libsopa::tags::{Tag, Tags};

fn ratio(tags: &Tags, preference: &Tags) -> f32 {
    let o = tags.overlap(preference);
    o.matched as f32 / o.total as f32
}

#[test]
fn data_creating_tags() {
    let mut tags = Tags::new();
    let tag = tags.define_tag("Test");
    assert!(tags.has_tag(&tag));

    for tag_name in (["Tag 1", "Tag 2", "Hello World"])
        .into_iter()
        .map(|t| t.to_string())
    {
        tags.define_tag(&tag_name);
    }

    assert_eq!(tags.get_all_tags().len(), 4);
}

#[test]
fn data_modyfing_tags() {
    let mut tags = Tags::new();
    let tag = tags.define_tag("Test");
    assert!(tags.has_tag(&tag.clone()));

    tags.undefine_tag("Test");
    assert!(!tags.has_tag(&tag.clone()));
}

#[test]
fn tags_creating_tags() {
    let mut tags = Tags::new();
    let tag = tags.define_tag("Test");
    assert!(tags.has_tag(&tag));

    for tag_name in (["Tag 1", "Tag 2", "Hello World"])
        .into_iter()
        .map(|t| t.to_string())
    {
        tags.define_tag(&tag_name);
    }

    assert_eq!(tags.get_all_tags().len(), 4);
}

#[test]
fn tags_modyfing_tags() {
    let mut tags = Tags::new();
    let tag = tags.define_tag("Test");
    assert!(tags.has_tag(&tag.clone()));

    tags.undefine_tag("Test");
    assert!(!tags.has_tag(&tag.clone()));
}

#[test]
fn types_creating_tags() {
    let mut tags = Tags::new();
    let tag = tags.define_tag("Test");
    assert!(tags.has_tag(&tag));

    for tag_name in (["Tag 1", "Tag 2", "Hello World"])
        .into_iter()
        .map(|t| t.to_string())
    {
        tags.define_tag(&tag_name);
    }

    assert_eq!(tags.get_all_tags().len(), 4);
}

#[test]
fn types_modyfing_tags() {
    let mut tags = Tags::new();
    let tag = tags.define_tag("Test");
    assert!(tags.has_tag(&tag.clone()));

    tags.undefine_tag("Test");
    assert!(!tags.has_tag(&tag.clone()));
}

#[test]
fn sanity_check_for_tag_group() {
    for (sample_group, sample_entry) in [
        (TagGroup::Age, Tag::new("Kid".to_string())),
        (TagGroup::GeoLocation, Tag::new("Trojmiasto".to_string())),
        (TagGroup::Sex, Tag::new("Male".to_string())),
    ] {
        let tags = get_all_supported_tags_of_group(&sample_group);
        assert!(tags.get_all_tags().len() > 0);
        assert!(tags.has_tag(&sample_entry));
    }
}

#[test]
fn sanity_check_for_tags_with_and_without_groups() {
    let all_tags = get_all_supported_tags().get_all_tags();
    let all_tags_without_groups = get_all_supported_tags_without_group().get_all_tags();
    let all_tags_of_some_group = get_all_supported_tags_of_group(&TagGroup::Age).get_all_tags();

    assert!(all_tags.len() > all_tags_without_groups.len());
    assert!(all_tags_without_groups.len() > all_tags_of_some_group.len());
}

#[test]
fn supported_tag_counts() {
    assert_eq!(get_all_supported_tags().get_all_tags().len(), 31);
    assert_eq!(get_all_supported_tags_without_group().get_all_tags().len(), 22);
    assert_eq!(get_all_supported_tags_of_group(&TagGroup::Sex).get_all_tags().len(), 2);
    assert_eq!(get_all_supported_tags_of_group(&TagGroup::Age).get_all_tags().len(), 4);
    assert_eq!(get_all_supported_tags_of_group(&TagGroup::GeoLocation).get_all_tags().len(), 3);
}

#[test]
fn associated_group_of_tags() {
    assert_eq!(Tag::new("Kid".to_string()).get_associated_group(), Some(TagGroup::Age));
    assert_eq!(Tag::new("Warszawa".to_string()).get_associated_group(), Some(TagGroup::GeoLocation));
    assert_eq!(Tag::new("Hostel".to_string()).get_associated_group(), None);
    assert_eq!(Tag::new("unknown".to_string()).get_associated_group(), None);
}

#[test]
fn overlap_counts_preference_tags_held() {
    let tags = Tags::new_tags(&["male", "female", "adult"]);
    let preference = Tags::new_tags(&["adult", "kid"]);
    let o = tags.overlap(&preference);
    assert_eq!((o.matched, o.total), (1, 2));
    assert_eq!(ratio(&tags, &preference), 0.5);
}

#[test]
fn overlap_is_asymmetric() {
    let a = Tags::new_tags(&["adult"]);
    let b = Tags::new_tags(&["adult", "kid"]);
    assert_eq!(ratio(&a, &b), 0.5);
    assert_eq!(ratio(&b, &a), 1.0);
}

#[test]
fn overlap_stays_in_unit_range() {
    let sets = [
        Tags::new(),
        Tags::new_tags(&["a"]),
        Tags::new_tags(&["a", "b"]),
        Tags::new_tags(&["c", "d", "e"]),
    ];
    for a in sets.iter() {
        for b in sets.iter() {
            let r = ratio(a, b);
            assert!((0.0..=1.0).contains(&r));
            assert!(!r.is_nan());
        }
    }
}

#[test]
fn overlap_with_itself_is_one() {
    let a = Tags::new_tags(&["x", "y", "z"]);
    assert_eq!(ratio(&a, &a), 1.0);
}

#[test]
fn overlap_with_empty_preference_is_one() {
    let a = Tags::new_tags(&["x", "y"]);
    let o = a.overlap(&Tags::new());
    assert_eq!((o.matched, o.total), (1, 1));
    assert_eq!(ratio(&Tags::new(), &Tags::new()), 1.0);
}

#[test]
fn overlap_without_common_tags_is_zero() {
    let a = Tags::new_tags(&["x"]);
    let b = Tags::new_tags(&["y", "z"]);
    assert_eq!(ratio(&a, &b), 0.0);
}

#[test]
fn define_is_idempotent() {
    let mut once = Tags::new();
    once.define_tag("a");
    let mut twice = once.clone();
    twice.define_tag("a");
    assert!(once == twice);
    assert_eq!(twice.get_all_tags().len(), 1);
}

#[test]
fn undefine_of_absent_tag_changes_nothing() {
    let mut tags = Tags::new_tags(&["a", "b"]);
    let removed = tags.undefine_tag("c");
    assert_eq!(removed.name, "c");
    assert!(tags == Tags::new_tags(&["b", "a"]));
}

#[test]
fn with_and_without_tag_leave_the_original() {
    let base = Tags::new_tags(&["a"]);
    let more = base.with_tag("b");
    let less = more.without_tag("a");
    assert_eq!(base.get_all_tags().len(), 1);
    assert!(more == Tags::new_tags(&["a", "b"]));
    assert!(less == Tags::new_tags(&["b"]));
}

#[test]
fn filtered_by_keeps_common_tags() {
    let tags = Tags::new_tags(&["a", "b", "stale"]);
    let known = Tags::new_tags(&["a", "b", "c"]);
    assert!(tags.filtered_by(&known) == Tags::new_tags(&["a", "b"]));
    let mut in_place = tags.clone();
    in_place.filter_by(&known);
    assert!(in_place == Tags::new_tags(&["b", "a"]));
}

#[test]
fn new_tags_drops_repeated_names() {
    let tags = Tags::new_tags(&["a", "a", "b"]);
    assert_eq!(tags.get_all_tags().len(), 2);
    assert!(tags != Tags::new_tags(&["a"]));
}

#[test]
fn tag_to_string_is_its_name() {
    assert_eq!(Tag::new("gender:male".to_string()).to_string(), "gender:male");
}

#[test]
fn tags_in_order_by_lower_case_name() {
    let tags = Tags::new_tags(&["b", "C", "a", "B2"]);
    let names: Vec<String> = tags.get_all_tags_in_order().into_iter().map(|t| t.name).collect();
    assert_eq!(names, vec!["a", "b", "B2", "C"]);
}

#[test]
fn order_by_keys_is_stable() {
    let tags: Vec<Tag> = ["x", "y", "z", "w"].iter().map(|n| Tag::new(n.to_string())).collect();
    let keys: Vec<String> = ["2", "1", "2", "1"].iter().map(|k| k.to_string()).collect();
    let names: Vec<String> = libsopa::tags::order_by_keys(tags, keys)
        .into_iter()
        .map(|t| t.name)
        .collect();
    assert_eq!(names, vec!["y", "w", "x", "z"]);
}

#[test]
fn supported_tags_in_order() {
    let names: Vec<String> = libsopa::catalogue::get_all_supported_tags_in_order()
        .into_iter()
        .map(|t| t.name)
        .collect();
    assert_eq!(names.len(), 31);
    assert_eq!(names[0], "Adult");
    assert_eq!(names[1], "alcohol abuse");
    let mut lowered: Vec<String> = names.iter().map(|n| n.to_lowercase()).collect();
    let copy = lowered.clone();
    lowered.sort();
    assert_eq!(lowered, copy);
}

#[test]
fn matching_tags_of_a_location() {
    let preference = Tags::new_tags(&["Kid", "Hostel"]);
    let mine = Tags::new_tags(&["Male", "stale tag", "Kid", "Adult"]);
    let shown: Vec<(String, bool)> = libsopa::catalogue::get_matching_tags(&preference, &mine)
        .into_iter()
        .map(|(t, accepted)| (t.name, accepted))
        .collect();
    assert_eq!(
        shown,
        vec![
            ("Adult".to_string(), false),
            ("Kid".to_string(), true),
            ("Male".to_string(), false),
        ]
    );
}

#[test]
fn order_by_display_names_uses_the_lower_cased_display_name() {
    let tags: Vec<Tag> = ["Male", "Kid", "Adult"].iter().map(|n| Tag::new(n.to_string())).collect();
    let display: Vec<String> = ["Mężczyzna", "dziecko", "Dorosły"].iter().map(|n| n.to_string()).collect();
    let names: Vec<String> = libsopa::tags::order_by_display_names(tags, &display)
        .into_iter()
        .map(|t| t.name)
        .collect();
    assert_eq!(names, vec!["Adult", "Kid", "Male"]);
}
