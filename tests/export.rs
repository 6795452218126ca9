use libsopa::contact::{Contact, ContactType};
use libsopa::export::SerializationError;
use libsopa::locations::{Location, Locations};
use libsopa::tags::Tags;
use libsopa::time::{Day, TimePoint, TimeSpan};

fn sample_registry() -> Locations {
    let mut locations = Locations::new();
    let mut a = Location::new();
    a.name = "OiK Gdańsk".to_string();
    a.address = "ul. Długa 1".to_string();
    a.description = "Crisis help".to_string();
    a.tags = Tags::new_tags(&["gender:male", "gender:female"]);
    a.contact_methods
        .add_new_contact_method(Contact::new(ContactType::PhoneNumber, "+48 123".to_string()));
    a.contact_methods
        .add_new_contact_method(Contact::new(ContactType::WebAddress, "https://example.org".to_string()));
    a.opened_hours.set_day_time_span(
        Day::Monday,
        TimeSpan {
            from: TimePoint { hour: 8, minute: 30 },
            to: TimePoint { hour: 16, minute: 0 },
        },
    );
    a.opened_hours.set_day_time_span(
        Day::Sunday,
        TimeSpan {
            from: TimePoint { hour: 10, minute: 5 },
            to: TimePoint { hour: 12, minute: 59 },
        },
    );
    locations.push_new(a);
    let mut b = Location::new();
    b.name = "Hostel".to_string();
    b.tags = Tags::new_tags(&["type:hostel"]);
    b.contact_methods
        .add_new_contact_method(Contact::new(ContactType::Email, "a@b.c".to_string()));
    locations.push_new(b);
    locations
}

#[test]
fn export_round_trip_keeps_every_record() {
    let locations = sample_registry();
    let bytes = locations.to_bin_data().expect("export");
    let back = Locations::from_bin_data(&bytes).expect("import");
    assert_eq!(
        back.locations_in_random_order(),
        locations.locations_in_random_order()
    );
}

#[test]
fn export_round_trip_of_empty_registry() {
    let bytes = Locations::new().to_bin_data().expect("export");
    let back = Locations::from_bin_data(&bytes).expect("import");
    assert!(back.locations_in_random_order().is_empty());
}

#[test]
fn export_writes_a_bson_document() {
    let bytes = sample_registry().to_bin_data().expect("export");
    let declared = u32::from_le_bytes([bytes[0], bytes[1], bytes[2], bytes[3]]) as usize;
    assert_eq!(declared, bytes.len());
    assert_eq!(*bytes.last().unwrap(), 0);
    let doc = bson::Document::from_reader(&bytes[..]).expect("document");
    assert_eq!(doc.len(), 2);
}

#[test]
fn import_of_garbage_is_a_decode_error() {
    assert_eq!(
        Locations::from_bin_data(&[1, 2, 3]).unwrap_err(),
        SerializationError::Decode
    );
}

#[test]
fn import_of_foreign_document_is_malformed() {
    let mut doc = bson::Document::new();
    doc.insert("name", "not a registry");
    let mut bytes = Vec::new();
    doc.to_writer(&mut bytes).unwrap();
    assert_eq!(
        Locations::from_bin_data(&bytes).unwrap_err(),
        SerializationError::Malformed
    );
}

#[test]
fn import_of_bad_record_is_malformed() {
    let mut doc = bson::Document::new();
    doc.insert("0123456789abcdef0123456789abcdef", vec!["only a name".to_string()]);
    let mut bytes = Vec::new();
    doc.to_writer(&mut bytes).unwrap();
    assert_eq!(
        Locations::from_bin_data(&bytes).unwrap_err(),
        SerializationError::Malformed
    );
}

#[test]
fn import_reads_a_handwritten_record() {
    let mut doc = bson::Document::new();
    let items: Vec<String> = vec![
        "Name", "Addr", "Desc", "08001000", "", "", "", "", "", "", "Tkid", "Eme@x.org",
    ]
    .into_iter()
    .map(String::from)
    .collect();
    doc.insert("000000000000000000000000000000ff", items);
    let mut bytes = Vec::new();
    doc.to_writer(&mut bytes).unwrap();
    let back = Locations::from_bin_data(&bytes).expect("import");
    let all = back.locations_in_random_order();
    assert_eq!(all.len(), 1);
    let l = &all[0];
    assert_eq!(l.get_id(), 255);
    assert_eq!(l.name, "Name");
    assert_eq!(l.address, "Addr");
    assert_eq!(l.description, "Desc");
    assert!(l.tags == Tags::new_tags(&["kid"]));
    assert_eq!(l.contact_methods.len(), 1);
    assert_eq!(l.contact_methods.all_contact_methods()[0].value, "me@x.org");
    assert_eq!(
        l.opened_hours.get_day_time_span(&Day::Monday),
        Some(TimeSpan {
            from: TimePoint { hour: 8, minute: 0 },
            to: TimePoint { hour: 16, minute: 0 },
        })
    );
    assert!(!l.opened_hours.is_opened_on_day(&Day::Tuesday));
}

#[test]
fn export_of_any_registry_succeeds() {
    let mut locations = Locations::new();
    let mut odd = Location::new();
    odd.name = "with\0nul".to_string();
    odd.tags = Tags::new_tags(&["a\0b"]);
    locations.push_new(odd);
    let bytes = locations.to_bin_data().expect("export");
    let back = Locations::from_bin_data(&bytes).expect("import");
    assert_eq!(back.locations_in_random_order(), locations.locations_in_random_order());
}
