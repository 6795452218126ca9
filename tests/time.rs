use libsopa::time::{Day, OpenedHours, TimePoint, TimeSpan};

#[test]
fn time_string_pads_to_two_digits() {
    assert_eq!(TimePoint { hour: 8, minute: 5 }.to_time_string(), "08:05");
    assert_eq!(TimePoint { hour: 23, minute: 59 }.to_time_string(), "23:59");
    assert_eq!(TimePoint { hour: 0, minute: 0 }.to_time_string(), "00:00");
    assert_eq!(TimePoint { hour: 200, minute: 7 }.to_time_string(), "200:07");
}

#[test]
fn time_string_is_read_back() {
    assert_eq!(
        TimePoint::from_time_string("08:05"),
        Some(TimePoint { hour: 8, minute: 5 })
    );
    assert_eq!(
        TimePoint::from_time_string("7:3"),
        Some(TimePoint { hour: 7, minute: 3 })
    );
    assert_eq!(
        TimePoint::from_time_string("+1:+02"),
        Some(TimePoint { hour: 1, minute: 2 })
    );
    assert_eq!(
        TimePoint::from_time_string("0023:0059"),
        Some(TimePoint { hour: 23, minute: 59 })
    );
}

#[test]
fn malformed_time_strings_are_rejected() {
    for s in [
        "", ":", "24:00", "12:60", "12", "1:2:3", "a:00", "12:", ":30", "-1:00", " 1:00", "256:00",
        "+:00",
    ] {
        assert_eq!(TimePoint::from_time_string(s), None, "{s}");
    }
}

#[test]
fn opened_hours_per_day() {
    let mut hours = OpenedHours::new();
    let span = TimeSpan {
        from: TimePoint { hour: 9, minute: 0 },
        to: TimePoint { hour: 17, minute: 0 },
    };
    assert!(!hours.is_opened_on_day(&Day::Friday));
    hours.set_day_time_span(Day::Friday, span);
    hours.set_day_time_span(Day::Monday, span);
    assert!(hours.is_opened_on_day(&Day::Friday));
    assert_eq!(hours.get_day_time_span(&Day::Friday), Some(span));
    assert_eq!(
        hours.get_time_span_per_day(),
        vec![(Day::Monday, span), (Day::Friday, span)]
    );
    hours.remove_day(&Day::Friday);
    assert_eq!(hours.get_day_time_span(&Day::Friday), None);
    assert_eq!(hours.get_time_span_per_day(), vec![(Day::Monday, span)]);
}

#[test]
fn week_starts_on_monday() {
    let days = Day::get_all_days_in_week();
    assert_eq!(days.len(), 7);
    assert_eq!(days[0], Day::Monday);
    assert_eq!(days[6], Day::Sunday);
    assert_eq!(Day::Wednesday.index(), 2);
    assert_eq!(Day::Sunday.translation_key(), "sunday");
}

#[test]
fn default_span_is_nine_to_five() {
    let span = libsopa::time::init_default_time_span();
    assert_eq!(span.from, TimePoint { hour: 9, minute: 0 });
    assert_eq!(span.to, TimePoint { hour: 17, minute: 0 });
}
