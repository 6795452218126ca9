//! Location records and the registry that holds them: insertion under
//! fresh identifiers, last-writer-wins updates with a divergence check, and
//! ranking by tag preference.
use crate::contact::{ContactMethods, ContactType};
use crate::tags::{exceeds, overlap_of, Overlap, Tags};
use crate::time::{Day, OpenedHours, TimeSpan};
use vstd::prelude::*;

verus! {

/// Relies on uuid::Uuid::new_v4, a random version-4 identifier whose version
/// and variant bits it sets with `| 0x40008000000000000000`, and on
/// Uuid::as_u128, which gives its 128 bits back as one number.
#[verifier::external_body]
fn random_location_id() -> (r: u128)
    ensures
        r & 0x4000_8000_0000_0000_0000u128 == 0x4000_8000_0000_0000_0000u128,
{
    uuid::Uuid::new_v4().as_u128()
}

/// What a location record holds, as plain values.
pub struct LocationView {
    pub id: u128,
    pub name: Seq<char>,
    pub tags: Set<Seq<char>>,
    pub address: Seq<char>,
    pub description: Seq<char>,
    pub contacts: Seq<(ContactType, Seq<char>)>,
    pub hours: Map<Day, TimeSpan>,
}

/// One assistance location. Its identifier is assigned when the record is
/// created and never changes.
#[derive(Clone, Debug)]
pub struct Location {
    pub(crate) id: u128,
    pub name: String,
    pub tags: Tags,
    pub address: String,
    pub description: String,
    pub contact_methods: ContactMethods,
    pub opened_hours: OpenedHours,
}

impl View for Location {
    type V = LocationView;

    closed spec fn view(&self) -> LocationView {
        LocationView {
            id: self.id,
            name: self.name@,
            tags: self.tags@,
            address: self.address@,
            description: self.description@,
            contacts: self.contact_methods@,
            hours: self.opened_hours@,
        }
    }
}

impl Location {
    /// The view holds the public fields' own views.
    pub(crate) proof fn lemma_view(&self)
        ensures
            self@.id == self.id,
            self@.name == self.name@,
            self@.tags == self.tags@,
            self@.address == self.address@,
            self@.description == self.description@,
            self@.contacts == self.contact_methods@,
            self@.hours == self.opened_hours@,
    {
    }

    /// An empty record with a new random identifier.
    pub fn new() -> (r: Location)
        ensures
            r@.id != 0,
            r@.name.len() == 0,
            r@.tags == Set::<Seq<char>>::empty(),
            r@.address.len() == 0,
            r@.description.len() == 0,
            r@.contacts.len() == 0,
            r@.hours == Map::<Day, TimeSpan>::empty(),
    {
        let id = random_location_id();
        assert(id != 0) by (bit_vector)
            requires
                id & 0x4000_8000_0000_0000_0000u128 == 0x4000_8000_0000_0000_0000u128,
        ;
        Location {
            id,
            name: String::new(),
            tags: Tags::new(),
            address: String::new(),
            description: String::new(),
            contact_methods: ContactMethods::new(),
            opened_hours: OpenedHours::new(),
        }
    }

    /// A record with every field given.
    pub fn with_fields(
        id: u128,
        name: String,
        tags: Tags,
        address: String,
        description: String,
        contact_methods: ContactMethods,
        opened_hours: OpenedHours,
    ) -> (r: Location)
        ensures
            r@ == (LocationView {
                id,
                name: name@,
                tags: tags@,
                address: address@,
                description: description@,
                contacts: contact_methods@,
                hours: opened_hours@,
            }),
    {
        Location { id, name, tags, address, description, contact_methods, opened_hours }
    }

    /// The identifier of this location.
    pub fn get_id(&self) -> (r: u128)
        ensures
            r == self@.id,
    {
        self.id
    }

    /// A copy of this record.
    pub fn duplicate(&self) -> (r: Location)
        ensures
            r@ == self@,
    {
        Location {
            id: self.id,
            name: self.name.clone(),
            tags: self.tags.duplicate(),
            address: self.address.clone(),
            description: self.description.clone(),
            contact_methods: self.contact_methods.duplicate(),
            opened_hours: self.opened_hours.duplicate(),
        }
    }

    /// Whether both records hold the same values in every field.
    pub fn same_as(&self, other: &Location) -> (r: bool)
        ensures
            r == (self@ == other@),
    {
        self.id == other.id && self.name == other.name && self.tags.same_tags(&other.tags)
            && self.address == other.address && self.description == other.description
            && self.contact_methods.same_as(&other.contact_methods)
            && self.opened_hours.same_as(&other.opened_hours)
    }
}

impl Default for Location {
    fn default() -> (r: Location)
        ensures
            r@.id != 0,
            r@.name.len() == 0,
            r@.tags == Set::<Seq<char>>::empty(),
            r@.address.len() == 0,
            r@.description.len() == 0,
            r@.contacts.len() == 0,
            r@.hours == Map::<Day, TimeSpan>::empty(),
    {
        Location::new()
    }
}

impl PartialEq for Location {
    fn eq(&self, other: &Location) -> (r: bool) {
        self.same_as(other)
    }
}

impl vstd::std_specs::cmp::PartialEqSpecImpl for Location {
    open spec fn obeys_eq_spec() -> bool {
        true
    }

    open spec fn eq_spec(&self, other: &Location) -> bool {
        self@ == other@
    }
}

/// The error of an update check on a location that the registry does not hold.
#[derive(Debug, Clone, Copy, PartialEq, Eq, Structural)]
pub enum ConsistencyError {
    /// No stored location has this identifier.
    NotInRegistry(u128),
}

/// Whether no record of `s` has the identifier `k`.
pub open spec fn unknown_to(s: Seq<LocationView>) -> spec_fn(u128) -> bool {
    |k: u128| !has_id(s, k)
}

/// Whether a stored location has the identifier `id`.
pub open spec fn has_id(s: Seq<LocationView>, id: u128) -> bool {
    exists|i: int| 0 <= i < s.len() && s[i].id == id
}

/// Where the location with identifier `id` is stored, or -1.
pub open spec fn index_of(s: Seq<LocationView>, id: u128) -> int {
    if has_id(s, id) {
        choose|i: int| 0 <= i < s.len() && s[i].id == id
    } else {
        -1
    }
}

/// No two stored locations share an identifier.
pub open spec fn unique_ids(s: Seq<LocationView>) -> bool {
    forall|i: int, j: int| 0 <= i < s.len() && 0 <= j < s.len() && i != j ==> s[i].id != s[j].id
}

/// The records after an upsert of `l`: it replaces the record with its
/// identifier, or goes last where there is none.
pub open spec fn upserted(s: Seq<LocationView>, l: LocationView) -> Seq<LocationView> {
    if has_id(s, l.id) {
        s.update(index_of(s, l.id), l)
    } else {
        s.push(l)
    }
}

/// The records after an upsert of each of `ls`, in order.
pub open spec fn upserted_all(s: Seq<LocationView>, ls: Seq<LocationView>) -> Seq<LocationView>
    decreases ls.len(),
{
    if ls.len() == 0 {
        s
    } else {
        upserted(upserted_all(s, ls.drop_last()), ls.last())
    }
}

/// The records without the one whose identifier is `id`.
pub open spec fn removed(s: Seq<LocationView>, id: u128) -> Seq<LocationView> {
    if has_id(s, id) {
        s.remove(index_of(s, id))
    } else {
        s
    }
}

/// Every tag that some stored location carries.
pub open spec fn tags_union(s: Seq<LocationView>) -> Set<Seq<char>> {
    Set::new(|t: Seq<char>| exists|i: int| 0 <= i < s.len() && #[trigger] s[i].tags.contains(t))
}

/// The overlap of a location's tags against a preference.
pub open spec fn score(l: LocationView, preference: Set<Seq<char>>) -> (nat, nat) {
    overlap_of(l.tags, preference)
}

/// `s` with `x` placed before the first record that scores strictly below it.
pub open spec fn insert_ranked(
    s: Seq<LocationView>,
    x: LocationView,
    preference: Set<Seq<char>>,
) -> Seq<LocationView>
    decreases s.len(),
{
    if s.len() == 0 {
        seq![x]
    } else if exceeds(score(x, preference), score(s[0], preference)) {
        seq![x] + s
    } else {
        seq![s[0]] + insert_ranked(s.drop_first(), x, preference)
    }
}

/// The records ranked by non-increasing score against `preference`; records
/// with equal scores keep their stored order.
pub open spec fn ranked(s: Seq<LocationView>, preference: Set<Seq<char>>) -> Seq<LocationView>
    decreases s.len(),
{
    if s.len() == 0 {
        s
    } else {
        insert_ranked(ranked(s.drop_last(), preference), s.last(), preference)
    }
}

/// The registry: location records, each identifier at most once, in the
/// order they were first stored.
#[derive(Debug)]
pub struct Locations {
    locations: Vec<Location>,
}

impl View for Locations {
    type V = Seq<LocationView>;

    closed spec fn view(&self) -> Seq<LocationView> {
        self.locations@.map_values(|l: Location| l@)
    }
}

proof fn lemma_index_of(s: Seq<LocationView>, i: int)
    requires
        unique_ids(s),
        0 <= i < s.len(),
    ensures
        has_id(s, s[i].id),
        index_of(s, s[i].id) == i,
{
}

impl Locations {
    #[verifier::type_invariant]
    closed spec fn inv(&self) -> bool {
        unique_ids(self@)
    }

    /// An empty registry.
    pub fn new() -> (r: Locations)
        ensures
            r@ == Seq::<LocationView>::empty(),
            unique_ids(r@),
    {
        let r = Locations { locations: Vec::new() };
        assert(r@ =~= Seq::<LocationView>::empty());
        r
    }

    /// A registry of the given records, stored one after the other; a later
    /// record replaces an earlier one with the same identifier.
    pub fn from_locations(locations: Vec<Location>) -> (r: Locations)
        ensures
            r@ == upserted_all(Seq::<LocationView>::empty(), locations@.map_values(|l: Location| l@)),
            unique_ids(r@),
    {
        let ghost all = locations@.map_values(|l: Location| l@);
        let mut r = Locations::new();
        let mut i: usize = 0;
        assert(all.take(0) =~= Seq::<LocationView>::empty());
        while i < locations.len()
            invariant
                i <= locations@.len(),
                all == locations@.map_values(|l: Location| l@),
                r@ == upserted_all(Seq::<LocationView>::empty(), all.take(i as int)),
                unique_ids(r@),
            decreases locations@.len() - i,
        {
            assert(all.take(i + 1).drop_last() =~= all.take(i as int));
            r.push_update(locations[i].duplicate());
            i = i + 1;
        }
        assert(all.take(i as int) =~= all);
        r
    }

    /// A copy of this registry.
    pub fn duplicate(&self) -> (r: Locations)
        ensures
            r@ == self@,
    {
        proof {
            use_type_invariant(self);
        }
        let v = self.locations_in_random_order();
        let r = Locations { locations: v };
        r
    }

    /// Moves the records out, leaving the registry empty.
    fn take_locations(&mut self) -> (r: Vec<Location>)
        ensures
            r@ == old(self).locations@,
    {
        let mut taken = Locations::new();
        std::mem::swap(self, &mut taken);
        let Locations { locations } = taken;
        locations
    }

    /// Where the record with identifier `id` is stored.
    fn position(&self, id: u128) -> (r: Option<usize>)
        ensures
            r is Some <==> has_id(self@, id),
            match r {
                Some(i) => i == index_of(self@, id) && i < self@.len(),
                None => index_of(self@, id) == -1,
            },
    {
        proof {
            use_type_invariant(self);
        }
        let mut i: usize = 0;
        while i < self.locations.len()
            invariant
                i <= self.locations@.len(),
                unique_ids(self@),
                forall|j: int| 0 <= j < i ==> self@[j].id != id,
            decreases self.locations@.len() - i,
        {
            if self.locations[i].id == id {
                proof {
                    assert(self@[i as int].id == id);
                    lemma_index_of(self@, i as int);
                }
                return Some(i);
            }
            i = i + 1;
        }
        None
    }

    /// Whether a record with the identifier of `location` is stored.
    pub fn contains(&self, location: &Location) -> (r: bool)
        ensures
            r == has_id(self@, location@.id),
    {
        self.position(location.id).is_some()
    }

    /// Stores `new_location` under its identifier, replacing the record
    /// stored there (the last writer wins).
    pub fn push_update(&mut self, new_location: Location)
        ensures
            final(self)@ == upserted(old(self)@, new_location@),
            unique_ids(final(self)@),
    {
        proof {
            use_type_invariant(&*self);
        }
        let ghost old_view = self@;
        let ghost l = new_location@;
        let pos = self.position(new_location.id);
        let mut v = self.take_locations();
        match pos {
            Some(i) => {
                v.set(i, new_location);
                assert(v@.map_values(|x: Location| x@) =~= old_view.update(i as int, l));
            },
            None => {
                v.push(new_location);
                assert(v@.map_values(|x: Location| x@) =~= old_view.push(l));
            },
        }
        assert(unique_ids(upserted(old_view, l)));
        *self = Locations { locations: v };
    }

    /// Deletes the record with the identifier of `location`; nothing
    /// happens where there is none.
    pub fn remove(&mut self, location: &Location)
        ensures
            final(self)@ == removed(old(self)@, location@.id),
            unique_ids(final(self)@),
    {
        proof {
            use_type_invariant(&*self);
        }
        let ghost old_view = self@;
        match self.position(location.id) {
            Some(i) => {
                let mut v = self.take_locations();
                v.remove(i);
                assert(v@.map_values(|x: Location| x@) =~= old_view.remove(i as int));
                assert(unique_ids(old_view.remove(i as int))) by {
                    assert forall|a: int, b: int|
                        0 <= a < old_view.remove(i as int).len() && 0 <= b < old_view.remove(
                            i as int,
                        ).len() && a != b implies old_view.remove(i as int)[a].id
                        != old_view.remove(i as int)[b].id by {
                        let a2 = if a < i {
                            a
                        } else {
                            a + 1
                        };
                        let b2 = if b < i {
                            b
                        } else {
                            b + 1
                        };
                        assert(old_view.remove(i as int)[a] == old_view[a2]);
                        assert(old_view.remove(i as int)[b] == old_view[b2]);
                    }
                }
                *self = Locations { locations: v };
            },
            None => {},
        }
        proof {
            use_type_invariant(&*self);
        }
    }

    /// The stored record with the identifier of `old_location`, where it
    /// differs from `old_location`: `None` when the two are equal, and an
    /// error when no record has that identifier.
    pub fn fetch_update(&self, old_location: &Location) -> (r: Result<
        Option<Location>,
        ConsistencyError,
    >)
        ensures
            !has_id(self@, old_location@.id) <==> r == Err::<Option<Location>, ConsistencyError>(
                ConsistencyError::NotInRegistry(old_location@.id),
            ),
            has_id(self@, old_location@.id) ==> match r {
                Ok(None) => self@[index_of(self@, old_location@.id)] == old_location@,
                Ok(Some(l)) => l@ == self@[index_of(self@, old_location@.id)] && l@
                    != old_location@,
                Err(_) => false,
            },
    {
        match self.position(old_location.id) {
            Some(i) => {
                let stored = &self.locations[i];
                if stored.same_as(old_location) {
                    Ok(None)
                } else {
                    Ok(Some(stored.duplicate()))
                }
            },
            None => Err(ConsistencyError::NotInRegistry(old_location.id)),
        }
    }

    /// An identifier between 1 and the number of records plus one that no
    /// record has.
    fn unused_id(&self) -> (r: u128)
        ensures
            !has_id(self@, r),
            r != 0,
    {
        let n = self.locations.len();
        assert(n < u128::MAX);
        let mut c: u128 = 1;
        while c <= n as u128 + 1
            invariant
                1 <= c <= n + 2,
                n == self@.len(),
                n < u128::MAX,
                forall|x: int| 1 <= x < c ==> #[trigger] has_id(self@, x as u128),
            decreases n + 2 - c,
        {
            if self.position(c).is_none() {
                return c;
            }
            c = c + 1;
        }
        proof {
            let ids = self@.map_values(|l: LocationView| l.id as int).to_set();
            let range = Set::new(|x: int| 1 <= x <= n + 1);
            assert forall|x: int| range.contains(x) implies ids.contains(x) by {
                assert(has_id(self@, x as u128));
                let i = choose|i: int| 0 <= i < self@.len() && self@[i].id == x as u128;
                assert(self@.map_values(|l: LocationView| l.id as int)[i] == x);
            }
            assert(range =~= vstd::set_lib::set_int_range(1, n + 2));
            vstd::set_lib::lemma_int_range(1, n + 2);
            self@.map_values(|l: LocationView| l.id as int).lemma_cardinality_of_set();
            vstd::seq_lib::seq_to_set_is_finite(self@.map_values(|l: LocationView| l.id as int));
            vstd::set_lib::lemma_len_subset(range, ids);
        }
        0
    }

    /// Stores `draft` under a fresh identifier, one that no stored record
    /// has, and returns the stored record.
    pub fn push_new(&mut self, draft: Location) -> (r: Location)
        ensures
            r@.id != 0,
            !has_id(old(self)@, r@.id),
            r@ == (LocationView { id: r@.id, ..draft@ }),
            final(self)@ == old(self)@.push(r@),
            unique_ids(final(self)@),
    {
        let drawn = random_location_id();
        assert(drawn != 0) by (bit_vector)
            requires
                drawn & 0x4000_8000_0000_0000_0000u128 == 0x4000_8000_0000_0000_0000u128,
        ;
        let id = if self.position(drawn).is_none() {
            drawn
        } else {
            self.unused_id()
        };
        let mut location = draft;
        location.id = id;
        let stored = location.duplicate();
        self.push_update(stored);
        location
    }

    /// Stores an empty record under a fresh identifier and returns it.
    pub fn push_new_nomodify(&mut self) -> (r: Location)
        ensures
            r@.id != 0,
            !has_id(old(self)@, r@.id),
            r@.name.len() == 0,
            r@.tags == Set::<Seq<char>>::empty(),
            r@.address.len() == 0,
            r@.description.len() == 0,
            r@.contacts.len() == 0,
            r@.hours == Map::<Day, TimeSpan>::empty(),
            final(self)@ == old(self)@.push(r@),
            unique_ids(final(self)@),
    {
        self.push_new(Location::new())
    }

    /// The keys among `stored_keys` of a persistent copy that no record here
    /// has any more, in their order: the entries a backup should delete.
    pub fn keys_to_prune(&self, stored_keys: &Vec<u128>) -> (r: Vec<u128>)
        ensures
            r@ == stored_keys@.filter(unknown_to(self@)),
    {
        let mut r: Vec<u128> = Vec::new();
        let mut i: usize = 0;
        while i < stored_keys.len()
            invariant
                i <= stored_keys@.len(),
                r@ == stored_keys@.take(i as int).filter(unknown_to(self@)),
            decreases stored_keys@.len() - i,
        {
            let k = stored_keys[i];
            proof {
                assert(stored_keys@.take(i + 1).drop_last() =~= stored_keys@.take(i as int));
                stored_keys@.take(i as int).lemma_filter_push(k, unknown_to(self@));
            }
            if self.position(k).is_none() {
                r.push(k);
            }
            assert(stored_keys@.take(i + 1) =~= stored_keys@.take(i as int).push(k));
            i = i + 1;
        }
        assert(stored_keys@.take(i as int) =~= stored_keys@);
        r
    }

    /// Every stored record, in stored order.
    pub fn locations_in_random_order(&self) -> (r: Vec<Location>)
        ensures
            r@.map_values(|l: Location| l@) == self@,
            unique_ids(self@),
    {
        proof {
            use_type_invariant(self);
        }
        let mut r: Vec<Location> = Vec::new();
        let mut i: usize = 0;
        while i < self.locations.len()
            invariant
                i <= self.locations@.len(),
                r@.len() == i,
                forall|k: int| 0 <= k < i ==> #[trigger] r@[k]@ == self.locations@[k]@,
                unique_ids(self@),
            decreases self.locations@.len() - i,
        {
            r.push(self.locations[i].duplicate());
            i = i + 1;
        }
        assert(r@.map_values(|l: Location| l@) =~= self@);
        r
    }

    /// Every tag that some stored location carries.
    pub fn build_tags(&self) -> (r: Tags)
        ensures
            r@ == tags_union(self@),
    {
        let mut r = Tags::new();
        let mut i: usize = 0;
        while i < self.locations.len()
            invariant
                i <= self.locations@.len(),
                r@ == tags_union(self@.take(i as int)),
            decreases self.locations@.len() - i,
        {
            let all = self.locations[i].tags.get_all_tags();
            let ghost before = r@;
            let mut j: usize = 0;
            while j < all.len()
                invariant
                    j <= all@.len(),
                    r@ == before.union(all@.map_values(|t: crate::tags::Tag| t@).take(j as int).to_set()),
                decreases all@.len() - j,
            {
                proof {
                    crate::tags::lemma_take_succ_to_set(all@.map_values(|t: crate::tags::Tag| t@), j as int);
                }
                r.define_tag(all[j].name.as_str());
                assert(r@ =~= before.union(all@.map_values(|t: crate::tags::Tag| t@).take(j + 1).to_set()));
                j = j + 1;
            }
            assert(all@.map_values(|t: crate::tags::Tag| t@).take(j as int) =~= all@.map_values(|t: crate::tags::Tag| t@));
            assert forall|t: Seq<char>| r@.contains(t) == tags_union(self@.take(i + 1)).contains(t) by {
                if r@.contains(t) && !before.contains(t) {
                    assert(self@.take(i + 1)[i as int].tags.contains(t));
                }
                if tags_union(self@.take(i + 1)).contains(t) {
                    let k = choose|k: int| 0 <= k < i + 1 && #[trigger] self@.take(i + 1)[k].tags.contains(t);
                    if k < i {
                        assert(self@.take(i as int)[k].tags.contains(t));
                    }
                }
            }
            assert(r@ =~= tags_union(self@.take(i + 1)));
            i = i + 1;
        }
        assert(self@.take(i as int) =~= self@);
        r
    }

    /// Every stored record, ranked by non-increasing overlap of its tags
    /// against `tags_preference`; records that score alike keep their stored
    /// order.
    pub fn all_locations_in_order(&self, tags_preference: &Tags) -> (r: Vec<Location>)
        ensures
            r@.map_values(|l: Location| l@) == ranked(self@, tags_preference@),
    {
        let ghost pref = tags_preference@;
        let mut result: Vec<Location> = Vec::new();
        let mut scores: Vec<Overlap> = Vec::new();
        let mut i: usize = 0;
        while i < self.locations.len()
            invariant
                i <= self.locations@.len(),
                pref == tags_preference@,
                result@.len() == scores@.len(),
                result@.map_values(|l: Location| l@) == ranked(self@.take(i as int), pref),
                forall|k: int| 0 <= k < scores@.len() ==> #[trigger] scores@[k]@ == score(result@[k]@, pref),
            decreases self.locations@.len() - i,
        {
            let x = self.locations[i].duplicate();
            let sx = x.tags.overlap(tags_preference);
            let mut k: usize = 0;
            while k < scores.len() && !sx.exceeds(&scores[k])
                invariant
                    k <= scores@.len(),
                    forall|j: int| 0 <= j < k ==> !exceeds(sx@, #[trigger] scores@[j]@),
                    sx@ == score(x@, pref),
                    result@.len() == scores@.len(),
                    forall|j: int| 0 <= j < scores@.len() ==> #[trigger] scores@[j]@ == score(result@[j]@, pref),
                decreases scores@.len() - k,
            {
                k = k + 1;
            }
            let ghost before = result@.map_values(|l: Location| l@);
            proof {
                assert forall|j: int| 0 <= j < k implies !exceeds(score(x@, pref), #[trigger] score(before[j], pref)) by {
                    assert(scores@[j]@ == score(result@[j]@, pref));
                }
                lemma_insert_ranked_at(before, x@, pref, k as int);
                assert(self@.take(i + 1).drop_last() =~= self@.take(i as int));
            }
            result.insert(k, x);
            scores.insert(k, sx);
            assert(result@.map_values(|l: Location| l@) =~= before.insert(k as int, self@[i as int]));
            i = i + 1;
        }
        assert(self@.take(i as int) =~= self@);
        result
    }
}

/// Placing `x` by [`insert_ranked`] puts it at `k`, the first place whose
/// record scores strictly below it.
proof fn lemma_insert_ranked_at(
    s: Seq<LocationView>,
    x: LocationView,
    preference: Set<Seq<char>>,
    k: int,
)
    requires
        0 <= k <= s.len(),
        forall|j: int| 0 <= j < k ==> !exceeds(score(x, preference), #[trigger] score(s[j], preference)),
        k < s.len() ==> exceeds(score(x, preference), score(s[k], preference)),
    ensures
        insert_ranked(s, x, preference) == s.insert(k, x),
    decreases s.len(),
{
    if s.len() == 0 {
        assert(s.insert(k, x) =~= seq![x]);
    } else if k == 0 {
        assert(s.insert(k, x) =~= seq![x] + s);
    } else {
        assert(!exceeds(score(x, preference), score(s[0], preference)));
        lemma_insert_ranked_at(s.drop_first(), x, preference, k - 1);
        assert(s.insert(k, x) =~= seq![s[0]] + s.drop_first().insert(k - 1, x));
    }
}

/// Whether `a` scores at least as high as `b`.
pub open spec fn at_least(a: (nat, nat), b: (nat, nat)) -> bool {
    !exceeds(b, a)
}

/// Records ranked by non-increasing score against `preference`.
pub open spec fn non_increasing(s: Seq<LocationView>, preference: Set<Seq<char>>) -> bool {
    forall|i: int, j: int|
        0 <= i < j < s.len() ==> at_least(
            #[trigger] score(s[i], preference),
            #[trigger] score(s[j], preference),
        )
}

proof fn lemma_score_total_positive(l: LocationView, preference: Set<Seq<char>>)
    ensures
        score(l, preference).1 > 0,
{
}

proof fn lemma_at_least_trans(a: (nat, nat), b: (nat, nat), c: (nat, nat))
    requires
        a.1 > 0,
        b.1 > 0,
        c.1 > 0,
        at_least(a, b),
        at_least(b, c),
    ensures
        at_least(a, c),
{
    let (a0, a1) = (a.0 as int, a.1 as int);
    let (b0, b1) = (b.0 as int, b.1 as int);
    let (c0, c1) = (c.0 as int, c.1 as int);
    assert(a0 * c1 >= c0 * a1) by (nonlinear_arith)
        requires
            a1 > 0,
            b1 > 0,
            c1 > 0,
            a0 * b1 >= b0 * a1,
            b0 * c1 >= c0 * b1,
    {
        assert(a0 * b1 * c1 >= b0 * a1 * c1);
        assert(b0 * c1 * a1 >= c0 * b1 * a1);
        assert(b1 * (a0 * c1) >= b1 * (c0 * a1));
    }
}

/// [`insert_ranked`] places `x` somewhere in `s`, leaving the order of `s`.
proof fn lemma_insert_ranked_inserts(s: Seq<LocationView>, x: LocationView, preference: Set<Seq<char>>)
    ensures
        exists|k: int| 0 <= k <= s.len() && insert_ranked(s, x, preference) == s.insert(k, x),
    decreases s.len(),
{
    if s.len() == 0 {
        assert(insert_ranked(s, x, preference) == s.insert(0, x));
    } else if exceeds(score(x, preference), score(s[0], preference)) {
        assert(insert_ranked(s, x, preference) =~= s.insert(0, x));
    } else {
        lemma_insert_ranked_inserts(s.drop_first(), x, preference);
        let k = choose|k: int|
            0 <= k <= s.drop_first().len() && insert_ranked(s.drop_first(), x, preference)
                == s.drop_first().insert(k, x);
        assert(insert_ranked(s, x, preference) =~= s.insert(k + 1, x));
    }
}

proof fn lemma_insert_ranked_keeps_order(
    s: Seq<LocationView>,
    x: LocationView,
    preference: Set<Seq<char>>,
)
    requires
        non_increasing(s, preference),
    ensures
        non_increasing(insert_ranked(s, x, preference), preference),
    decreases s.len(),
{
    let r = insert_ranked(s, x, preference);
    if s.len() == 0 {
    } else if exceeds(score(x, preference), score(s[0], preference)) {
        assert forall|i: int, j: int| 0 <= i < j < r.len() implies at_least(
            #[trigger] score(r[i], preference),
            #[trigger] score(r[j], preference),
        ) by {
            if i == 0 {
                lemma_score_total_positive(x, preference);
                lemma_score_total_positive(s[0], preference);
                lemma_score_total_positive(s[j - 1], preference);
                if j - 1 > 0 {
                    assert(at_least(score(s[0], preference), score(s[j - 1], preference)));
                    lemma_at_least_trans(score(x, preference), score(s[0], preference), score(s[j - 1], preference));
                }
            } else {
                assert(r[i] == s[i - 1] && r[j] == s[j - 1]);
            }
        }
    } else {
        let rest = s.drop_first();
        lemma_insert_ranked_keeps_order(rest, x, preference);
        lemma_insert_ranked_inserts(rest, x, preference);
        let k = choose|k: int| 0 <= k <= rest.len() && insert_ranked(rest, x, preference) == rest.insert(k, x);
        let t = insert_ranked(rest, x, preference);
        assert(r =~= seq![s[0]] + t);
        assert forall|i: int, j: int| 0 <= i < j < r.len() implies at_least(
            #[trigger] score(r[i], preference),
            #[trigger] score(r[j], preference),
        ) by {
            if i == 0 {
                assert(r[j] == t[j - 1]);
                if j - 1 == k {
                    assert(t[j - 1] == x);
                } else if j - 1 < k {
                    assert(t[j - 1] == s[j]);
                } else {
                    assert(t[j - 1] == s[j - 1]);
                }
            } else {
                assert(r[i] == t[i - 1] && r[j] == t[j - 1]);
            }
        }
    }
}

/// Ranking returns a permutation of the stored records, ranked by
/// non-increasing overlap score against the preference.
pub proof fn lemma_ranked_is_ordered_permutation(s: Seq<LocationView>, preference: Set<Seq<char>>)
    ensures
        ranked(s, preference).to_multiset() == s.to_multiset(),
        non_increasing(ranked(s, preference), preference),
    decreases s.len(),
{
    broadcast use vstd::seq_lib::to_multiset_insert, vstd::seq_lib::to_multiset_build;

    if s.len() == 0 {
    } else {
        let prev = ranked(s.drop_last(), preference);
        lemma_ranked_is_ordered_permutation(s.drop_last(), preference);
        lemma_insert_ranked_inserts(prev, s.last(), preference);
        lemma_insert_ranked_keeps_order(prev, s.last(), preference);
        let k = choose|k: int| 0 <= k <= prev.len() && insert_ranked(prev, s.last(), preference) == prev.insert(k, s.last());
        assert(s.drop_last().push(s.last()) =~= s);
    }
}

/// A record just stored under a fresh identifier is the stored version of
/// itself: an update check on it finds no divergence.
pub proof fn lemma_fresh_record_is_current(s: Seq<LocationView>, l: LocationView)
    requires
        unique_ids(s),
        !has_id(s, l.id),
    ensures
        unique_ids(s.push(l)),
        has_id(s.push(l), l.id),
        s.push(l)[index_of(s.push(l), l.id)] == l,
{
    assert(s.push(l)[s.len() as int].id == l.id);
    lemma_index_of(s.push(l), s.len() as int);
}

/// After another writer stores `newer` under the identifier of a stored
/// record, an update check finds `newer` stored there.
pub proof fn lemma_update_is_fetched(s: Seq<LocationView>, newer: LocationView)
    requires
        unique_ids(s),
        has_id(s, newer.id),
    ensures
        unique_ids(upserted(s, newer)),
        has_id(upserted(s, newer), newer.id),
        upserted(s, newer)[index_of(upserted(s, newer), newer.id)] == newer,
{
    let i = index_of(s, newer.id);
    let u = upserted(s, newer);
    assert(u[i].id == newer.id);
    lemma_index_of(u, i);
}

/// Once the record with identifier `id` is removed, no record has it.
pub proof fn lemma_removed_is_gone(s: Seq<LocationView>, id: u128)
    requires
        unique_ids(s),
    ensures
        !has_id(removed(s, id), id),
{
    if has_id(s, id) {
        let i = index_of(s, id);
        let r = s.remove(i);
        assert forall|j: int| 0 <= j < r.len() implies r[j].id != id by {
            if j < i {
                assert(r[j] == s[j]);
            } else {
                assert(r[j] == s[j + 1]);
            }
        }
    }
}

impl Clone for Locations {
    fn clone(&self) -> (r: Locations)
        ensures
            r@ == self@,
    {
        self.duplicate()
    }
}

} // verus!
