//! A location record as a list of strings, and back.
//!
//! The list holds the name, the address and the description; then one entry
//! per day of the week, Monday first, empty on a closed day and otherwise
//! the span's four numbers as two hexadecimal digits each; then one entry
//! per tag (`T` and its name) and one per contact entry, in order (`P`, `E`
//! or `W` by kind, and its value). The identifier is written apart, as 32
//! hexadecimal digits.
use crate::contact::{Contact, ContactMethods, ContactType};
use crate::hex::{
    all_hex, hex_digits, hex_value, lemma_hex_round_trip, lemma_pow16_2, lemma_pow16_32, push_hex,
    read_hex,
};
use crate::locations::{Location, LocationView};
use crate::tags::{lemma_take_succ_to_set, Tag, Tags};
use crate::time::{day_index, lemma_day_index, week, Day, OpenedHours, TimePoint, TimeSpan};
use vstd::prelude::*;

verus! {

/// The key a record is written under: its identifier in 32 hexadecimal digits.
pub open spec fn record_key(id: u128) -> Seq<char> {
    hex_digits(id as nat, 32)
}

/// The span written in a day's entry.
pub open spec fn parse_span(s: Seq<char>) -> Option<TimeSpan> {
    if s.len() == 8 && all_hex(s) {
        Some(
            TimeSpan {
                from: TimePoint {
                    hour: hex_value(s.subrange(0, 2)) as u8,
                    minute: hex_value(s.subrange(2, 4)) as u8,
                },
                to: TimePoint {
                    hour: hex_value(s.subrange(4, 6)) as u8,
                    minute: hex_value(s.subrange(6, 8)) as u8,
                },
            },
        )
    } else {
        None
    }
}

/// A day's entry: `Some(None)` for a closed day, `None` where it is malformed.
pub open spec fn parse_day_entry(s: Seq<char>) -> Option<Option<TimeSpan>> {
    if s.len() == 0 {
        Some(None)
    } else if parse_span(s) is Some {
        Some(parse_span(s))
    } else {
        None
    }
}

/// The entry of `d` in a record's list.
pub open spec fn day_entry(items: Seq<Seq<char>>, d: Day) -> Seq<char> {
    items[3 + day_index(d)]
}

pub open spec fn hours_valid(items: Seq<Seq<char>>) -> bool {
    forall|d: Day| parse_day_entry(#[trigger] day_entry(items, d)) is Some
}

/// The opening hours that a record's list holds.
pub open spec fn parse_hours(items: Seq<Seq<char>>) -> Map<Day, TimeSpan> {
    Map::new(
        |d: Day| parse_day_entry(day_entry(items, d))->0 is Some,
        |d: Day| parse_day_entry(day_entry(items, d))->0->0,
    )
}

/// Tags and contact entries, as they are read.
pub type Extras = (Set<Seq<char>>, Seq<(ContactType, Seq<char>)>);

/// The kind of contact entry that a leading character names.
pub open spec fn contact_kind(c: char) -> Option<ContactType> {
    if c == 'P' {
        Some(ContactType::PhoneNumber)
    } else if c == 'E' {
        Some(ContactType::Email)
    } else if c == 'W' {
        Some(ContactType::WebAddress)
    } else {
        None
    }
}

/// Reads one tag or contact entry into `acc`.
pub open spec fn apply_extra(acc: Extras, item: Seq<char>) -> Option<Extras> {
    if item.len() == 0 {
        None
    } else if item[0] == 'T' {
        Some((acc.0.insert(item.drop_first()), acc.1))
    } else if contact_kind(item[0]) is Some {
        Some((acc.0, acc.1.push((contact_kind(item[0])->0, item.drop_first()))))
    } else {
        None
    }
}

/// The tags and contact entries of a list of entries, read in order.
pub open spec fn parse_extras(items: Seq<Seq<char>>) -> Option<Extras>
    decreases items.len(),
{
    if items.len() == 0 {
        Some((Set::empty(), Seq::empty()))
    } else {
        match parse_extras(items.drop_last()) {
            Some(acc) => apply_extra(acc, items.last()),
            None => None,
        }
    }
}

/// The location that a key and a list of entries write, if they are well formed.
pub open spec fn parse_record(key: Seq<char>, items: Seq<Seq<char>>) -> Option<LocationView> {
    if key.len() == 32 && all_hex(key) && items.len() >= 10 && hours_valid(items) && parse_extras(
        items.skip(10),
    ) is Some {
        Some(
            LocationView {
                id: hex_value(key) as u128,
                name: items[0],
                address: items[1],
                description: items[2],
                tags: (parse_extras(items.skip(10))->0).0,
                contacts: (parse_extras(items.skip(10))->0).1,
                hours: parse_hours(items),
            },
        )
    } else {
        None
    }
}

pub open spec fn string_views(v: Seq<String>) -> Seq<Seq<char>> {
    v.map_values(|s: String| s@)
}

/// Two hexadecimal digits read back as the byte they were written from.
proof fn lemma_byte_round_trip(b: u8)
    ensures
        hex_digits(b as nat, 2).len() == 2,
        all_hex(hex_digits(b as nat, 2)),
        hex_value(hex_digits(b as nat, 2)) == b as nat,
{
    lemma_hex_round_trip(b as nat, 2);
    lemma_pow16_2();
    vstd::arithmetic::div_mod::lemma_small_mod(b as nat, 256);
}

/// Writes the key of the identifier `id`.
pub fn write_key(id: u128) -> (r: String)
    ensures
        r@ == record_key(id),
{
    let mut s = String::new();
    push_hex(&mut s, id, 32);
    s
}

/// Reads an identifier written as 32 hexadecimal digits.
pub fn read_key(key: &str) -> (r: Option<u128>)
    ensures
        (key@.len() == 32 && all_hex(key@)) <==> r is Some,
        r matches Some(id) ==> id == hex_value(key@) as u128,
{
    if key.unicode_len() != 32 {
        return None;
    }
    assert(key@.subrange(0, 32) =~= key@);
    read_hex(key, 0, 32)
}

/// The identifier written by [`write_key`] reads back unchanged.
pub proof fn lemma_key_round_trip(id: u128)
    ensures
        record_key(id).len() == 32,
        all_hex(record_key(id)),
        hex_value(record_key(id)) as u128 == id,
{
    lemma_hex_round_trip(id as nat, 32);
    lemma_pow16_32();
    vstd::arithmetic::div_mod::lemma_small_mod(id as nat, 0x1_0000_0000_0000_0000_0000_0000_0000_0000nat);
}

fn write_span(t: &TimeSpan) -> (r: String)
    ensures
        parse_span(r@) == Some(*t),
        r@.len() == 8,
{
    let mut s = String::new();
    push_hex(&mut s, t.from.hour as u128, 2);
    push_hex(&mut s, t.from.minute as u128, 2);
    push_hex(&mut s, t.to.hour as u128, 2);
    push_hex(&mut s, t.to.minute as u128, 2);
    proof {
        let a = hex_digits(t.from.hour as nat, 2);
        let b = hex_digits(t.from.minute as nat, 2);
        let c = hex_digits(t.to.hour as nat, 2);
        let d = hex_digits(t.to.minute as nat, 2);
        lemma_byte_round_trip(t.from.hour);
        lemma_byte_round_trip(t.from.minute);
        lemma_byte_round_trip(t.to.hour);
        lemma_byte_round_trip(t.to.minute);
        assert(s@ =~= a + b + c + d);
        assert(s@.subrange(0, 2) =~= a);
        assert(s@.subrange(2, 4) =~= b);
        assert(s@.subrange(4, 6) =~= c);
        assert(s@.subrange(6, 8) =~= d);
        assert(all_hex(s@));
    }
    s
}

fn read_span(s: &str) -> (r: Option<TimeSpan>)
    ensures
        r == parse_span(s@),
{
    if s.unicode_len() != 8 {
        return None;
    }
    let a = read_hex(s, 0, 2);
    let b = read_hex(s, 2, 4);
    let c = read_hex(s, 4, 6);
    let d = read_hex(s, 6, 8);
    if a.is_none() || b.is_none() || c.is_none() || d.is_none() {
        assert(!all_hex(s@)) by {
            if all_hex(s@) {
                assert(all_hex(s@.subrange(0, 2)));
                assert(all_hex(s@.subrange(2, 4)));
                assert(all_hex(s@.subrange(4, 6)));
                assert(all_hex(s@.subrange(6, 8)));
            }
        }
        return None;
    }
    assert(all_hex(s@)) by {
        assert forall|i: int| 0 <= i < 8 implies crate::hex::is_hex(#[trigger] s@[i]) by {
            if i < 2 {
                assert(s@.subrange(0, 2)[i] == s@[i]);
            } else if i < 4 {
                assert(s@.subrange(2, 4)[i - 2] == s@[i]);
            } else if i < 6 {
                assert(s@.subrange(4, 6)[i - 4] == s@[i]);
            } else {
                assert(s@.subrange(6, 8)[i - 6] == s@[i]);
            }
        }
    }
    proof {
        crate::hex::lemma_hex_value_bound(s@.subrange(0, 2));
        crate::hex::lemma_hex_value_bound(s@.subrange(2, 4));
        crate::hex::lemma_hex_value_bound(s@.subrange(4, 6));
        crate::hex::lemma_hex_value_bound(s@.subrange(6, 8));
        lemma_pow16_2();
    }
    Some(
        TimeSpan {
            from: TimePoint { hour: a.unwrap() as u8, minute: b.unwrap() as u8 },
            to: TimePoint { hour: c.unwrap() as u8, minute: d.unwrap() as u8 },
        },
    )
}

/// Writes the list of entries of `l`; its key is written apart.
pub fn write_record(l: &Location) -> (r: Vec<String>)
    ensures
        parse_record(record_key(l@.id), string_views(r@)) == Some(l@),
{
    proof {
        l.lemma_view();
        lemma_day_index();
    }
    let mut items: Vec<String> = Vec::new();
    items.push(l.name.clone());
    items.push(l.address.clone());
    items.push(l.description.clone());
    let days = Day::get_all_days_in_week();
    let mut k: usize = 0;
    while k < 7
        invariant
            k <= 7,
            days@ == week(),
            l@.hours == l.opened_hours@,
            items@.len() == 3 + k,
            string_views(items@)[0] == l@.name,
            string_views(items@)[1] == l@.address,
            string_views(items@)[2] == l@.description,
            forall|d: Day|
                day_index(d) < k ==> parse_day_entry(#[trigger] day_entry(string_views(items@), d))
                    == Some(if l@.hours.contains_key(d) {
                    Some(l@.hours[d])
                } else {
                    None
                }),
            forall|a: Day, b: Day| #[trigger] day_index(a) == #[trigger] day_index(b) ==> a == b,
            forall|a: Day| 0 <= #[trigger] day_index(a) < 7,
            forall|i: int| 0 <= i < 7 ==> day_index(#[trigger] week()[i]) == i,
        decreases 7 - k,
    {
        let ghost before = items@;
        let day = days[k];
        let entry = match l.opened_hours.get_day_time_span(&day) {
            Some(span) => write_span(&span),
            None => String::new(),
        };
        let ghost ev = entry@;
        assert(parse_day_entry(ev) == Some(if l@.hours.contains_key(day) {
            Some(l@.hours[day])
        } else {
            None
        }));
        items.push(entry);
        assert(string_views(items@)[3 + k] == ev);
        assert forall|d: Day| day_index(d) < k + 1 implies parse_day_entry(
            #[trigger] day_entry(string_views(items@), d),
        ) == Some(if l@.hours.contains_key(d) {
            Some(l@.hours[d])
        } else {
            None
        }) by {
            if day_index(d) < k {
                assert(string_views(items@)[3 + day_index(d)] == string_views(before)[3 + day_index(d)]);
                assert(day_entry(string_views(items@), d) == day_entry(string_views(before), d));
            } else {
                assert(day_index(day) == k);
                assert(d == day);
                assert(day_entry(string_views(items@), d) == ev);
            }
        }
        k = k + 1;
    }
    let ghost fixed = items@;
    let tags = l.tags.get_all_tags();
    let ghost names = tags@.map_values(|t: Tag| t@);
    let mut j: usize = 0;
    assert(string_views(items@).skip(10) =~= Seq::<Seq<char>>::empty());
    assert(names.take(0).to_set() =~= Set::<Seq<char>>::empty());
    while j < tags.len()
        invariant
            j <= tags@.len(),
            names == tags@.map_values(|t: Tag| t@),
            items@.len() == 10 + j,
            names.to_set() == l@.tags,
            items@.subrange(0, 10) == fixed.subrange(0, 10),
            parse_extras(string_views(items@).skip(10)) == Some(
                (names.take(j as int).to_set(), Seq::<(ContactType, Seq<char>)>::empty()),
            ),
        decreases tags@.len() - j,
    {
        let ghost before = items@;
        proof {
            reveal_strlit("T");
            lemma_take_succ_to_set(names, j as int);
        }
        let mut entry = String::from_str("T");
        entry.append(tags[j].name.as_str());
        items.push(entry);
        assert(string_views(items@).skip(10).drop_last() =~= string_views(before).skip(10));
        assert(items@.subrange(0, 10) =~= before.subrange(0, 10));
        assert(string_views(items@).skip(10).last().drop_first() =~= names[j as int]);
        j = j + 1;
    }
    assert(names.take(j as int) =~= names);
    let contacts = l.contact_methods.all_contact_methods();
    let ghost cs = contacts@.map_values(|c: Contact| c@);
    let mut m: usize = 0;
    assert(cs.take(0) =~= Seq::<(ContactType, Seq<char>)>::empty());
    while m < contacts.len()
        invariant
            m <= contacts@.len(),
            cs == contacts@.map_values(|c: Contact| c@),
            cs == l@.contacts,
            items@.len() >= 10,
            items@.subrange(0, 10) == fixed.subrange(0, 10),
            parse_extras(string_views(items@).skip(10)) == Some((l@.tags, cs.take(m as int))),
        decreases contacts@.len() - m,
    {
        let ghost before = items@;
        let c = &contacts[m];
        proof {
            reveal_strlit("P");
            reveal_strlit("E");
            reveal_strlit("W");
        }
        let mut entry = match c.contact_type {
            ContactType::PhoneNumber => String::from_str("P"),
            ContactType::Email => String::from_str("E"),
            ContactType::WebAddress => String::from_str("W"),
        };
        entry.append(c.value.as_str());
        items.push(entry);
        assert(string_views(items@).skip(10).drop_last() =~= string_views(before).skip(10));
        assert(items@.subrange(0, 10) =~= before.subrange(0, 10));
        assert(string_views(items@).skip(10).last().drop_first() =~= c.value@);
        assert(cs.take(m + 1) =~= cs.take(m as int).push(cs[m as int]));
        m = m + 1;
    }
    assert(cs.take(m as int) =~= cs);
    proof {
        lemma_key_round_trip(l@.id);
        let v = string_views(items@);
        assert forall|i: int| 0 <= i < 10 implies v[i] == string_views(fixed)[i] by {
            assert(items@.subrange(0, 10)[i] == fixed.subrange(0, 10)[i]);
        }
        assert(hours_valid(v)) by {
            assert forall|d: Day| parse_day_entry(#[trigger] day_entry(v, d)) is Some by {
                assert(day_entry(v, d) == day_entry(string_views(fixed), d));
            }
        }
        assert(parse_hours(v) =~= l@.hours) by {
            assert forall|d: Day| #[trigger] parse_day_entry(day_entry(v, d)) == Some(
                if l@.hours.contains_key(d) {
                    Some(l@.hours[d])
                } else {
                    None
                },
            ) by {
                assert(day_entry(v, d) == day_entry(string_views(fixed), d));
            }
        }
    }
    items
}

/// Reads one tag or contact entry into `tags` and `contacts`.
fn read_extra(item: &str, tags: &mut Tags, contacts: &mut ContactMethods) -> (ok: bool)
    ensures
        ok <==> apply_extra((old(tags)@, old(contacts)@), item@) is Some,
        ok ==> apply_extra((old(tags)@, old(contacts)@), item@) == Some(
            (final(tags)@, final(contacts)@),
        ),
{
    let n = item.unicode_len();
    if n == 0 {
        return false;
    }
    let c = item.get_char(0);
    let rest = item.substring_char(1, n);
    assert(rest@ =~= item@.drop_first());
    if c == 'T' {
        tags.define_tag(rest);
        true
    } else if c == 'P' {
        contacts.add_new_contact_method(Contact::new(ContactType::PhoneNumber, String::from_str(rest)));
        true
    } else if c == 'E' {
        contacts.add_new_contact_method(Contact::new(ContactType::Email, String::from_str(rest)));
        true
    } else if c == 'W' {
        contacts.add_new_contact_method(Contact::new(ContactType::WebAddress, String::from_str(rest)));
        true
    } else {
        false
    }
}

/// Reads the location that `key` and `items` write, if they are well formed.
pub fn read_record(key: &String, items: &Vec<String>) -> (r: Option<Location>)
    ensures
        r is Some <==> parse_record(key@, string_views(items@)) is Some,
        r matches Some(l) ==> parse_record(key@, string_views(items@)) == Some(l@),
{
    let ghost v = string_views(items@);
    let id = match read_key(key.as_str()) {
        Some(id) => id,
        None => {
            return None;
        },
    };
    if items.len() < 10 {
        return None;
    }
    proof {
        lemma_day_index();
    }
    let days = Day::get_all_days_in_week();
    let mut hours = OpenedHours::new();
    let mut k: usize = 0;
    while k < 7
        invariant
            k <= 7,
            days@ == week(),
            items@.len() >= 10,
            v == string_views(items@),
            forall|d: Day| day_index(d) < k ==> parse_day_entry(#[trigger] day_entry(v, d)) is Some,
            hours@ == parse_hours(v).restrict(Set::new(|d: Day| day_index(d) < k)),
            forall|a: Day, b: Day| #[trigger] day_index(a) == #[trigger] day_index(b) ==> a == b,
            forall|a: Day| 0 <= #[trigger] day_index(a) < 7,
            forall|i: int| 0 <= i < 7 ==> day_index(#[trigger] week()[i]) == i,
        decreases 7 - k,
    {
        let day = days[k];
        let entry = items[3 + k].as_str();
        assert(entry@ == day_entry(v, day));
        let ghost prev = hours@;
        if entry.unicode_len() != 0 {
            match read_span(entry) {
                Some(span) => {
                    hours.set_day_time_span(day, span);
                },
                None => {
                    assert(parse_day_entry(day_entry(v, day)) is None);
                    assert(!hours_valid(v));
                    return None;
                },
            }
        }
        assert(hours@ =~= parse_hours(v).restrict(Set::new(|d: Day| day_index(d) < k + 1)));
        k = k + 1;
    }
    assert(hours_valid(v));
    assert(hours@ =~= parse_hours(v));
    let mut tags = Tags::new();
    let mut contacts = ContactMethods::new();
    let mut j: usize = 10;
    assert(v.skip(10).take(0) =~= Seq::<Seq<char>>::empty());
    while j < items.len()
        invariant
            10 <= j <= items@.len(),
            v == string_views(items@),
            parse_extras(v.skip(10).take(j - 10)) == Some((tags@, contacts@)),
        decreases items@.len() - j,
    {
        assert(v.skip(10).take(j + 1 - 10).drop_last() =~= v.skip(10).take(j - 10));
        assert(v.skip(10).take(j + 1 - 10).last() == items@[j as int]@);
        if !read_extra(items[j].as_str(), &mut tags, &mut contacts) {
            proof {
                lemma_extras_prefix_fails(v.skip(10), j + 1 - 10);
            }
            return None;
        }
        j = j + 1;
    }
    assert(v.skip(10).take(j - 10) =~= v.skip(10));
    let l = Location::with_fields(
        id,
        items[0].clone(),
        tags,
        items[1].clone(),
        items[2].clone(),
        contacts,
        hours,
    );
    Some(l)
}

/// Once a prefix of the entries fails to read, the whole list fails.
proof fn lemma_extras_prefix_fails(items: Seq<Seq<char>>, n: int)
    requires
        0 <= n <= items.len(),
        parse_extras(items.take(n)) is None,
    ensures
        parse_extras(items) is None,
    decreases items.len() - n,
{
    if n < items.len() {
        assert(items.take(n + 1).drop_last() =~= items.take(n));
        lemma_extras_prefix_fails(items, n + 1);
    } else {
        assert(items.take(n) =~= items);
    }
}

} // verus!
