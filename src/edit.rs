//! An editing session on one location: changes are staged on a local copy,
//! checked against the registry, and committed.
use crate::locations::{
    has_id, index_of, upserted, ConsistencyError, Location, LocationView, Locations,
};
use crate::time::{Day, TimeSpan};
use vstd::prelude::*;

verus! {

/// The location under edit and its staged changes.
pub struct LocationEditManager {
    location: Location,
}

impl View for LocationEditManager {
    type V = LocationView;

    closed spec fn view(&self) -> LocationView {
        self.location@
    }
}

impl LocationEditManager {
    /// A session on `selected_location`, with nothing staged.
    pub fn init(selected_location: Location) -> (r: LocationEditManager)
        ensures
            r@ == selected_location@,
    {
        LocationEditManager { location: selected_location }
    }

    /// The location as the session holds it, staged changes included.
    pub fn get_location_under_edit(&self) -> (r: Location)
        ensures
            r@ == self@,
    {
        self.location.duplicate()
    }

    /// Stages `modified_location` in place of what the session holds.
    pub fn stage_location_changes(&mut self, modified_location: Location)
        ensures
            final(self)@ == modified_location@,
    {
        self.location = modified_location;
    }

    /// Writes the staged location to `locations` under its identifier.
    pub fn commit_location_changes(&self, locations: &mut Locations)
        ensures
            final(locations)@ == upserted(old(locations)@, self@),
    {
        locations.push_update(self.location.duplicate());
    }

    /// Drops the staged changes for the version that `locations` stores;
    /// an error, with nothing changed, where it stores none.
    pub fn clear_location_changes(&mut self, locations: &Locations) -> (r: Result<(), ConsistencyError>)
        ensures
            r is Ok <==> has_id(locations@, old(self)@.id),
            r is Ok ==> final(self)@ == locations@[index_of(locations@, old(self)@.id)],
            r is Err ==> final(self)@ == old(self)@,
    {
        match locations.fetch_update(&self.location) {
            Ok(Some(clean_location)) => {
                self.location = clean_location;
                Ok(())
            },
            Ok(None) => Ok(()),
            Err(e) => Err(e),
        }
    }

    /// Stores a new location with the given name and address in `locations`
    /// and returns it.
    pub fn request_new_location(locations: &mut Locations, name: String, address: String) -> (r: Location)
        ensures
            r@.name == name@,
            r@.address == address@,
            r@.description.len() == 0,
            r@.tags == Set::<Seq<char>>::empty(),
            r@.contacts.len() == 0,
            r@.hours == Map::<Day, TimeSpan>::empty(),
            r@.id != 0,
            !has_id(old(locations)@, r@.id),
            final(locations)@ == old(locations)@.push(r@),
    {
        let mut draft = Location::new();
        proof {
            draft.lemma_view();
        }
        draft.name = name;
        draft.address = address;
        proof {
            draft.lemma_view();
        }
        locations.push_new(draft)
    }
}

} // verus!
