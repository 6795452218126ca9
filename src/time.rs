//! Days, times of day and the opening hours of a location.
use vstd::prelude::*;

verus! {

/// A day of the week.
#[derive(Debug, Clone, Copy, PartialEq, Eq, Structural, Hash)]
pub enum Day {
    Monday,
    Tuesday,
    Wednesday,
    Thursday,
    Friday,
    Saturday,
    Sunday,
}

/// The place of a day in the week, Monday first.
pub open spec fn day_index(d: Day) -> int {
    match d {
        Day::Monday => 0,
        Day::Tuesday => 1,
        Day::Wednesday => 2,
        Day::Thursday => 3,
        Day::Friday => 4,
        Day::Saturday => 5,
        Day::Sunday => 6,
    }
}

/// The days of the week, Monday first.
pub open spec fn week() -> Seq<Day> {
    seq![
        Day::Monday,
        Day::Tuesday,
        Day::Wednesday,
        Day::Thursday,
        Day::Friday,
        Day::Saturday,
        Day::Sunday,
    ]
}

impl Day {
    /// The place of this day in the week, Monday first.
    pub fn index(&self) -> (r: usize)
        ensures
            r == day_index(*self),
    {
        match self {
            Day::Monday => 0,
            Day::Tuesday => 1,
            Day::Wednesday => 2,
            Day::Thursday => 3,
            Day::Friday => 4,
            Day::Saturday => 5,
            Day::Sunday => 6,
        }
    }

    /// The key under which the display name of this day is translated.
    pub fn translation_key(&self) -> (r: &'static str)
        ensures
            r@ == day_key(*self),
    {
        match self {
            Day::Monday => "monday",
            Day::Tuesday => "tuesday",
            Day::Wednesday => "wednesday",
            Day::Thursday => "thursday",
            Day::Friday => "friday",
            Day::Saturday => "saturday",
            Day::Sunday => "sunday",
        }
    }

    /// Every day of the week, Monday first.
    pub fn get_all_days_in_week() -> (r: Vec<Day>)
        ensures
            r@ == week(),
    {
        let r = vec![
            Day::Monday,
            Day::Tuesday,
            Day::Wednesday,
            Day::Thursday,
            Day::Friday,
            Day::Saturday,
            Day::Sunday,
        ];
        assert(r@ =~= week());
        r
    }
}

pub open spec fn day_key(d: Day) -> Seq<char> {
    match d {
        Day::Monday => "monday"@,
        Day::Tuesday => "tuesday"@,
        Day::Wednesday => "wednesday"@,
        Day::Thursday => "thursday"@,
        Day::Friday => "friday"@,
        Day::Saturday => "saturday"@,
        Day::Sunday => "sunday"@,
    }
}

/// A time of day, to the minute.
#[derive(Debug, Clone, Copy, PartialEq, Eq, Structural)]
pub struct TimePoint {
    pub hour: u8,
    pub minute: u8,
}

/// The span of a day from `from` up to `to`.
#[derive(Debug, Clone, Copy, PartialEq, Eq, Structural)]
pub struct TimeSpan {
    pub from: TimePoint,
    pub to: TimePoint,
}

/// The span a newly opened day starts with: from 9:00 to 17:00.
pub fn init_default_time_span() -> (r: TimeSpan)
    ensures
        r == (TimeSpan {
            from: TimePoint { hour: 9, minute: 0 },
            to: TimePoint { hour: 17, minute: 0 },
        }),
{
    TimeSpan { from: TimePoint { hour: 9, minute: 0 }, to: TimePoint { hour: 17, minute: 0 } }
}

/// The character of the decimal digit `d`.
pub open spec fn digit_char(d: nat) -> char {
    if d == 0 {
        '0'
    } else if d == 1 {
        '1'
    } else if d == 2 {
        '2'
    } else if d == 3 {
        '3'
    } else if d == 4 {
        '4'
    } else if d == 5 {
        '5'
    } else if d == 6 {
        '6'
    } else if d == 7 {
        '7'
    } else if d == 8 {
        '8'
    } else {
        '9'
    }
}

/// The value of a decimal digit character.
pub open spec fn digit_value(c: char) -> nat {
    (c as u32 - '0' as u32) as nat
}

pub open spec fn is_digit(c: char) -> bool {
    '0' <= c && c <= '9'
}

/// `n` in decimal, at least two digits (a leading zero below ten).
pub open spec fn two_digits(n: nat) -> Seq<char> {
    if n < 10 {
        seq!['0', digit_char(n)]
    } else if n < 100 {
        seq![digit_char(n / 10), digit_char(n % 10)]
    } else {
        seq![digit_char(n / 100), digit_char((n / 10) % 10), digit_char(n % 10)]
    }
}

/// The time written `HH:MM`.
pub open spec fn time_string(t: TimePoint) -> Seq<char> {
    two_digits(t.hour as nat) + seq![':'] + two_digits(t.minute as nat)
}

/// The value of a string of decimal digits.
pub open spec fn digits_value(s: Seq<char>) -> nat
    decreases s.len(),
{
    if s.len() == 0 {
        0
    } else {
        digits_value(s.drop_last()) * 10 + digit_value(s.last())
    }
}

/// `s` without a leading `+`.
pub open spec fn unsigned_digits(s: Seq<char>) -> Seq<char> {
    if s.len() > 0 && s[0] == '+' {
        s.drop_first()
    } else {
        s
    }
}

pub open spec fn all_digits(d: Seq<char>) -> bool {
    forall|i: int| 0 <= i < d.len() ==> is_digit(#[trigger] d[i])
}

/// An unsigned byte written in decimal: an optional `+`, then one or more
/// digits whose value is at most 255.
pub open spec fn parse_byte(s: Seq<char>) -> Option<nat> {
    let d = unsigned_digits(s);
    if d.len() == 0 || !all_digits(d) {
        None
    } else if digits_value(d) > 255 {
        None
    } else {
        Some(digits_value(d))
    }
}

/// The time that `s` writes as `H:M`: exactly one colon, an hour below 24
/// before it and a minute below 60 after it.
pub open spec fn parse_time(s: Seq<char>) -> Option<TimePoint> {
    if exists|p: int| sole_colon_at(s, p) {
        let p = choose|p: int| sole_colon_at(s, p);
        match (parse_byte(s.take(p)), parse_byte(s.skip(p + 1))) {
            (Some(h), Some(m)) => if h < 24 && m < 60 {
                Some(TimePoint { hour: h as u8, minute: m as u8 })
            } else {
                None
            },
            _ => None,
        }
    } else {
        None
    }
}

/// `s` holds a colon at `p` and nowhere else.
pub open spec fn sole_colon_at(s: Seq<char>, p: int) -> bool {
    0 <= p < s.len() && s[p] == ':' && forall|q: int| 0 <= q < s.len() && q != p ==> #[trigger] s[q] != ':'
}

/// The digit `d` as a one-character string.
fn digit_str(d: u8) -> (r: &'static str)
    requires
        d < 10,
    ensures
        r@ == seq![digit_char(d as nat)],
{
    proof {
        reveal_strlit("0");
        reveal_strlit("1");
        reveal_strlit("2");
        reveal_strlit("3");
        reveal_strlit("4");
        reveal_strlit("5");
        reveal_strlit("6");
        reveal_strlit("7");
        reveal_strlit("8");
        reveal_strlit("9");
    }
    if d == 0 {
        "0"
    } else if d == 1 {
        "1"
    } else if d == 2 {
        "2"
    } else if d == 3 {
        "3"
    } else if d == 4 {
        "4"
    } else if d == 5 {
        "5"
    } else if d == 6 {
        "6"
    } else if d == 7 {
        "7"
    } else if d == 8 {
        "8"
    } else {
        "9"
    }
}

/// Appends `n` to `out` as [`two_digits`] writes it.
fn push_two_digits(out: &mut String, n: u8)
    ensures
        final(out)@ == old(out)@ + two_digits(n as nat),
{
    if n < 10 {
        out.append(digit_str(0));
        out.append(digit_str(n));
    } else if n < 100 {
        out.append(digit_str(n / 10));
        out.append(digit_str(n % 10));
    } else {
        out.append(digit_str(n / 100));
        out.append(digit_str((n / 10) % 10));
        out.append(digit_str(n % 10));
    }
    assert(final(out)@ =~= old(out)@ + two_digits(n as nat));
}

/// Reads the decimal byte that `s` holds between `from` and `to`.
fn parse_byte_in(s: &str, from: usize, to: usize) -> (r: Option<u8>)
    requires
        from <= to <= s@.len(),
    ensures
        match r {
            Some(v) => parse_byte(s@.subrange(from as int, to as int)) == Some(v as nat),
            None => parse_byte(s@.subrange(from as int, to as int)) is None,
        },
{
    let ghost whole = s@.subrange(from as int, to as int);
    let mut start = from;
    if from < to && s.get_char(from) == '+' {
        start = from + 1;
    }
    let ghost d = s@.subrange(start as int, to as int);
    assert(d =~= unsigned_digits(whole));
    if start == to {
        assert(d.len() == 0);
        return None;
    }
    let mut value: u32 = 0;
    let mut i = start;
    assert(d.take(0) =~= Seq::<char>::empty());
    while i < to
        invariant
            start <= i <= to <= s@.len(),
            d == s@.subrange(start as int, to as int),
            whole == s@.subrange(from as int, to as int),
            d == unsigned_digits(whole),
            d.len() > 0,
            value == digits_value(d.take(i - start)),
            value <= 255,
            forall|k: int| 0 <= k < i - start ==> is_digit(#[trigger] d[k]),
        decreases to - i,
    {
        let c = s.get_char(i);
        assert(c == d[i - start]);
        if !('0' <= c && c <= '9') {
            assert(!is_digit(d[i - start]));
            assert(!all_digits(d));
            assert(parse_byte(whole) is None);
            return None;
        }
        assert(d.take(i - start + 1).drop_last() =~= d.take(i - start));
        assert(d.take(i - start + 1).last() == c);
        value = value * 10 + (c as u32 - '0' as u32);
        if value > 255 {
            proof {
                lemma_digits_value_grows(d, i - start + 1);
            }
            assert(digits_value(d) > 255);
            assert(parse_byte(whole) is None);
            return None;
        }
        i = i + 1;
    }
    assert(d.take(i - start) =~= d);
    Some(value as u8)
}

/// A longer prefix of digits is worth at least as much as a shorter one.
proof fn lemma_digits_value_grows(d: Seq<char>, n: int)
    requires
        0 <= n <= d.len(),
    ensures
        digits_value(d) >= digits_value(d.take(n)),
    decreases d.len() - n,
{
    if n < d.len() {
        lemma_digits_value_grows(d, n + 1);
        assert(d.take(n + 1).drop_last() =~= d.take(n));
    } else {
        assert(d.take(n) =~= d);
    }
}

impl TimePoint {
    /// The time written `HH:MM`.
    pub fn to_time_string(&self) -> (r: String)
        ensures
            r@ == time_string(*self),
    {
        let mut out = String::new();
        push_two_digits(&mut out, self.hour);
        proof {
            reveal_strlit(":");
        }
        out.append(":");
        push_two_digits(&mut out, self.minute);
        assert(out@ =~= time_string(*self));
        out
    }

    /// Reads a time written `H:M`: exactly one colon, an hour below 24 and a
    /// minute below 60, each an unsigned byte in decimal.
    pub fn from_time_string(time_str: &str) -> (r: Option<TimePoint>)
        ensures
            r == parse_time(time_str@),
    {
        let n = time_str.unicode_len();
        let mut colon: Option<usize> = None;
        let mut i: usize = 0;
        while i < n
            invariant
                n == time_str@.len(),
                i <= n,
                colon is None ==> (forall|q: int| 0 <= q < i ==> #[trigger] time_str@[q] != ':'),
                colon is Some ==> (colon->0 < i && time_str@[colon->0 as int] == ':' && forall|q: int|
                    0 <= q < i && q != colon->0 ==> #[trigger] time_str@[q] != ':'),
            decreases n - i,
        {
            if time_str.get_char(i) == ':' {
                if colon.is_some() {
                    let p = colon.unwrap();
                    assert forall|p2: int| !sole_colon_at(time_str@, p2) by {
                        if p2 == p {
                            assert(time_str@[i as int] == ':');
                        } else {
                            assert(time_str@[p as int] == ':');
                        }
                    }
                    return None;
                }
                colon = Some(i);
            }
            i = i + 1;
        }
        match colon {
            None => {
                assert forall|p2: int| !sole_colon_at(time_str@, p2) by {
                    if 0 <= p2 < time_str@.len() {
                        assert(time_str@[p2] != ':');
                    }
                }
                None
            },
            Some(p) => {
                let ghost s = time_str@;
                assert(sole_colon_at(s, p as int));
                let ghost chosen = choose|p2: int| sole_colon_at(s, p2);
                assert(chosen == p as int) by {
                    if chosen != p as int {
                        assert(s[p as int] != ':');
                    }
                }
                assert(s.take(p as int) =~= s.subrange(0, p as int));
                assert(s.skip(p + 1) =~= s.subrange(p + 1, n as int));
                let hour = parse_byte_in(time_str, 0, p);
                let minute = parse_byte_in(time_str, p + 1, n);
                match (hour, minute) {
                    (Some(h), Some(m)) => {
                        if h < 24 && m < 60 {
                            Some(TimePoint { hour: h, minute: m })
                        } else {
                            None
                        }
                    },
                    _ => None,
                }
            },
        }
    }
}

/// The opening hours of a location: for each day, the span it is open, or
/// nothing on a closed day.
#[derive(Debug)]
pub struct OpenedHours {
    days: Vec<Option<TimeSpan>>,
}

impl View for OpenedHours {
    type V = Map<Day, TimeSpan>;

    closed spec fn view(&self) -> Map<Day, TimeSpan> {
        Map::new(
            |d: Day| self.days@[day_index(d)] is Some,
            |d: Day| self.days@[day_index(d)].unwrap(),
        )
    }
}

impl OpenedHours {
    #[verifier::type_invariant]
    closed spec fn inv(&self) -> bool {
        self.days@.len() == 7
    }

    /// Closed on every day.
    pub fn new() -> (r: OpenedHours)
        ensures
            r@ == Map::<Day, TimeSpan>::empty(),
    {
        let r = OpenedHours { days: vec![None, None, None, None, None, None, None] };
        assert(r@ =~= Map::<Day, TimeSpan>::empty());
        r
    }

    /// The days on which the location is open, in week order, each with its span.
    pub fn get_time_span_per_day(&self) -> (r: Vec<(Day, TimeSpan)>)
        ensures
            forall|i: int| 0 <= i < r@.len() ==> self@.contains_key(#[trigger] r@[i].0) && self@[r@[i].0] == r@[i].1,
            forall|d: Day| self@.contains_key(d) ==> exists|i: int| 0 <= i < r@.len() && #[trigger] r@[i].0 == d,
            r@.len() == self@.dom().len(),
            forall|i: int, j: int| 0 <= i < j < r@.len() ==> day_index(#[trigger] r@[i].0) < day_index(#[trigger] r@[j].0),
    {
        proof {
            use_type_invariant(self);
        }
        let days = Day::get_all_days_in_week();
        let mut r: Vec<(Day, TimeSpan)> = Vec::new();
        let mut i: usize = 0;
        proof {
            lemma_day_index();
        }
        assert(self@.dom().filter(|d: Day| day_index(d) < 0) =~= Set::<Day>::empty());
        while i < 7
            invariant
                i <= 7,
                days@ == week(),
                self.days@.len() == 7,
                forall|k: int| 0 <= k < r@.len() ==> self@.contains_key(#[trigger] r@[k].0) && self@[r@[k].0] == r@[k].1 && day_index(r@[k].0) < i,
                forall|d: Day| self@.contains_key(d) && day_index(d) < i ==> exists|k: int| 0 <= k < r@.len() && #[trigger] r@[k].0 == d,
                r@.len() == self@.dom().filter(|d: Day| day_index(d) < i).len(),
                forall|a: int, b: int| 0 <= a < b < r@.len() ==> day_index(#[trigger] r@[a].0) < day_index(#[trigger] r@[b].0),
            decreases 7 - i,
        {
            let d = days[i];
            assert(day_index(d) == i);
            let ghost before = self@.dom().filter(|x: Day| day_index(x) < i);
            let ghost after = self@.dom().filter(|x: Day| day_index(x) < i + 1);
            proof {
                lemma_days_below_finite(self@.dom(), i as int);
            }
            match self.days[i] {
                Some(span) => {
                    let ghost prev = r@;
                    r.push((d, span));
                    assert(after =~= before.insert(d));
                    assert(!before.contains(d));
                    assert forall|x: Day|
                        self@.contains_key(x) && day_index(x) < i + 1 implies exists|k: int|
                        0 <= k < r@.len() && #[trigger] r@[k].0 == x by {
                        if day_index(x) == i {
                            assert(r@[r@.len() - 1].0 == x);
                        } else {
                            let k = choose|k: int| 0 <= k < prev.len() && #[trigger] prev[k].0 == x;
                            assert(r@[k].0 == x);
                        }
                    }
                },
                None => {
                    assert(after =~= before);
                    assert(!self@.contains_key(d));
                },
            }
            i = i + 1;
        }
        assert(self@.dom().filter(|d: Day| day_index(d) < 7) =~= self@.dom());
        r
    }

    /// Closes the location on `day`.
    pub fn remove_day(&mut self, day: &Day)
        ensures
            final(self)@ == old(self)@.remove(*day),
    {
        self.set_entry(*day, None);
        proof {
            lemma_day_index();
        }
        assert(self@ =~= old(self)@.remove(*day));
    }

    /// Opens the location on `day` for `time_span`.
    pub fn set_day_time_span(&mut self, day: Day, time_span: TimeSpan)
        ensures
            final(self)@ == old(self)@.insert(day, time_span),
    {
        self.set_entry(day, Some(time_span));
        proof {
            lemma_day_index();
        }
        assert(self@ =~= old(self)@.insert(day, time_span));
    }

    fn set_entry(&mut self, day: Day, entry: Option<TimeSpan>)
        ensures
            final(self).days@ == old(self).days@.update(day_index(day), entry),
            final(self).days@.len() == 7,
            old(self).days@.len() == 7,
    {
        proof {
            use_type_invariant(&*self);
        }
        let mut taken = OpenedHours::new();
        std::mem::swap(self, &mut taken);
        let OpenedHours { days: mut v } = taken;
        v.set(day.index(), entry);
        *self = OpenedHours { days: v };
    }

    /// The span the location is open on `day`, if it is open.
    pub fn get_day_time_span(&self, day: &Day) -> (r: Option<TimeSpan>)
        ensures
            r == (if self@.contains_key(*day) {
                Some(self@[*day])
            } else {
                None
            }),
    {
        proof {
            use_type_invariant(self);
        }
        self.days[day.index()]
    }

    /// Whether the location is open on `day`.
    pub fn is_opened_on_day(&self, day: &Day) -> (r: bool)
        ensures
            r == self@.contains_key(*day),
    {
        self.get_day_time_span(day).is_some()
    }

    /// A copy of these hours.
    pub fn duplicate(&self) -> (r: OpenedHours)
        ensures
            r@ == self@,
    {
        proof {
            use_type_invariant(self);
        }
        let r = OpenedHours {
            days: vec![self.days[0], self.days[1], self.days[2], self.days[3], self.days[4], self.days[5], self.days[6]],
        };
        assert(r.days@ =~= self.days@);
        r
    }

    /// Whether both hold the same spans on the same days.
    pub fn same_as(&self, other: &OpenedHours) -> (r: bool)
        ensures
            r == (self@ == other@),
    {
        proof {
            use_type_invariant(self);
            use_type_invariant(other);
        }
        let mut i: usize = 0;
        while i < 7
            invariant
                i <= 7,
                self.days@.len() == 7,
                other.days@.len() == 7,
                forall|k: int| 0 <= k < i ==> self.days@[k] == other.days@[k],
            decreases 7 - i,
        {
            if self.days[i] != other.days[i] {
                let ghost d = week()[i as int];
                assert(day_index(d) == i);
                assert(self@.contains_key(d) != other@.contains_key(d) || self@[d] != other@[d]);
                return false;
            }
            i = i + 1;
        }
        assert forall|d: Day| self.days@[day_index(d)] == other.days@[day_index(d)] by {}
        assert(self@ =~= other@);
        true
    }
}

/// Days are told apart by their place in the week, Monday first.
pub proof fn lemma_day_index()
    ensures
        forall|a: Day, b: Day| #[trigger] day_index(a) == #[trigger] day_index(b) ==> a == b,
        forall|a: Day| 0 <= #[trigger] day_index(a) < 7,
        forall|i: int| 0 <= i < 7 ==> day_index(#[trigger] week()[i]) == i,
{
}

proof fn lemma_days_below_finite(s: Set<Day>, i: int)
    ensures
        s.filter(|d: Day| day_index(d) < i).finite(),
{
    let all = Set::new(|d: Day| day_index(d) < 7);
    assert(all =~= set![Day::Monday, Day::Tuesday, Day::Wednesday, Day::Thursday, Day::Friday, Day::Saturday, Day::Sunday]);
    vstd::set_lib::lemma_set_subset_finite(all, s.filter(|d: Day| day_index(d) < i));
}

impl Default for OpenedHours {
    fn default() -> (r: OpenedHours)
        ensures
            r@ == Map::<Day, TimeSpan>::empty(),
    {
        OpenedHours::new()
    }
}

impl Clone for OpenedHours {
    fn clone(&self) -> (r: OpenedHours)
        ensures
            r@ == self@,
    {
        self.duplicate()
    }
}

} // verus!
