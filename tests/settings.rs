use libsopa::contact::{get_contact_fontawesome_icon, ContactType};
use libsopa::settings::{
    get_emoji_for_language, is_supported_language, resolve_color_scheme, select_language,
    transform_browser_language, ColorScheme,
};

#[test]
fn color_scheme_names() {
    assert_eq!(ColorScheme::from_string("light"), Some(ColorScheme::Light));
    assert_eq!(ColorScheme::from_string("dark"), Some(ColorScheme::Dark));
    assert_eq!(ColorScheme::from_string("Dark"), None);
    assert_eq!(ColorScheme::Dark.to_string(), "dark");
    assert_eq!(ColorScheme::Light.to_string(), "light");
}

#[test]
fn stored_color_scheme_wins() {
    assert_eq!(
        resolve_color_scheme(Some("dark"), Some(ColorScheme::Light)),
        ColorScheme::Dark
    );
    assert_eq!(
        resolve_color_scheme(Some("blue"), Some(ColorScheme::Dark)),
        ColorScheme::Dark
    );
    assert_eq!(resolve_color_scheme(None, None), ColorScheme::Light);
}

#[test]
fn languages() {
    assert_eq!(transform_browser_language("en-US".to_string()), "en");
    assert_eq!(transform_browser_language("pl".to_string()), "pl");
    assert_eq!(get_emoji_for_language("en"), "🇺🇸");
    assert_eq!(get_emoji_for_language("pl"), "🇵🇱");
    assert_eq!(get_emoji_for_language("de"), "🌐");
    assert_eq!(select_language(Some("pl".to_string()), Some("de".to_string())), "pl");
    assert_eq!(select_language(None, Some("de".to_string())), "de");
    assert_eq!(select_language(None, None), "en");
    let supported = vec!["en".to_string(), "pl".to_string()];
    assert!(is_supported_language("pl", &supported));
    assert!(!is_supported_language("de", &supported));
}

#[test]
fn contact_type_keys() {
    assert_eq!(ContactType::Email.translation_key(), "contact-type-email");
    assert_eq!(ContactType::default(), ContactType::Email);
}

#[test]
fn contact_icons() {
    assert_eq!(get_contact_fontawesome_icon(ContactType::Email), "fa-envelope");
    assert_eq!(get_contact_fontawesome_icon(ContactType::PhoneNumber), "fa-phone");
    assert_eq!(get_contact_fontawesome_icon(ContactType::WebAddress), "fa-link");
}
