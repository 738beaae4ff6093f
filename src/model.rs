use vstd::prelude::*;

verus! {

/// Largest encoded size, in bytes, of any stored record.
pub const MAX_RECORD_SIZE: usize = 1024;

// Money amounts (`cost`, `budget`) are held in hundredths of the currency unit.

/// Something to do at a location.
#[derive(Debug, Clone, PartialEq)]
pub struct Activity {
    pub id: u64,
    pub name: String,
    pub duration: u32,
    pub cost: i64,
    pub description: String,
    /// Id of the owning location; not checked against the location table.
    pub location: u64,
}

pub struct ActivityView {
    pub id: u64,
    pub name: Seq<char>,
    pub duration: u32,
    pub cost: i64,
    pub description: Seq<char>,
    pub location: u64,
}

impl View for Activity {
    type V = ActivityView;

    open spec fn view(&self) -> ActivityView {
        ActivityView {
            id: self.id,
            name: self.name@,
            duration: self.duration,
            cost: self.cost,
            description: self.description@,
            location: self.location,
        }
    }
}

/// A place, with snapshots of the activities attached to it.
#[derive(Debug, Clone, PartialEq)]
pub struct Location {
    pub id: u64,
    pub name: String,
    pub country: String,
    pub site: String,
    pub description: String,
    pub activities: Vec<Activity>,
}

pub struct LocationView {
    pub id: u64,
    pub name: Seq<char>,
    pub country: Seq<char>,
    pub site: Seq<char>,
    pub description: Seq<char>,
    pub activities: Seq<ActivityView>,
}

pub open spec fn activity_views(v: Seq<Activity>) -> Seq<ActivityView> {
    v.map_values(|a: Activity| a@)
}

impl View for Location {
    type V = LocationView;

    open spec fn view(&self) -> LocationView {
        LocationView {
            id: self.id,
            name: self.name@,
            country: self.country@,
            site: self.site@,
            description: self.description@,
            activities: activity_views(self.activities@),
        }
    }
}

/// A leg of travel between two locations.
#[derive(Debug, Clone, PartialEq)]
pub struct Transportation {
    pub id: u64,
    pub type_: String,
    /// Location ids; not checked against the location table.
    pub from: u64,
    pub to: u64,
    pub cost: i64,
    pub date: String,
}

pub struct TransportationView {
    pub id: u64,
    pub type_: Seq<char>,
    pub from: u64,
    pub to: u64,
    pub cost: i64,
    pub date: Seq<char>,
}

impl View for Transportation {
    type V = TransportationView;

    open spec fn view(&self) -> TransportationView {
        TransportationView {
            id: self.id,
            type_: self.type_@,
            from: self.from,
            to: self.to,
            cost: self.cost,
            date: self.date@,
        }
    }
}

/// A trip, with snapshots of its destinations, activities and legs.
#[derive(Debug, Clone, PartialEq)]
pub struct Trip {
    pub id: u64,
    pub name: String,
    pub start_date: String,
    pub end_date: String,
    pub destinations: Vec<Location>,
    pub activities: Vec<Activity>,
    pub budget: i64,
    pub transportation: Vec<Transportation>,
}

pub struct TripView {
    pub id: u64,
    pub name: Seq<char>,
    pub start_date: Seq<char>,
    pub end_date: Seq<char>,
    pub destinations: Seq<LocationView>,
    pub activities: Seq<ActivityView>,
    pub budget: i64,
    pub transportation: Seq<TransportationView>,
}

pub open spec fn location_views(v: Seq<Location>) -> Seq<LocationView> {
    v.map_values(|l: Location| l@)
}

pub open spec fn transportation_views(v: Seq<Transportation>) -> Seq<TransportationView> {
    v.map_values(|t: Transportation| t@)
}

impl View for Trip {
    type V = TripView;

    open spec fn view(&self) -> TripView {
        TripView {
            id: self.id,
            name: self.name@,
            start_date: self.start_date@,
            end_date: self.end_date@,
            destinations: location_views(self.destinations@),
            activities: activity_views(self.activities@),
            budget: self.budget,
            transportation: transportation_views(self.transportation@),
        }
    }
}

pub open spec fn trip_views(v: Seq<Trip>) -> Seq<TripView> {
    v.map_values(|t: Trip| t@)
}

/// The caller-supplied fields of a location.
#[derive(Debug, Clone, PartialEq)]
pub struct LocationPayload {
    pub name: String,
    pub country: String,
    pub site: String,
    pub description: String,
}

/// The caller-supplied fields of an activity.
#[derive(Debug, Clone, PartialEq)]
pub struct ActivityPayload {
    pub name: String,
    pub duration: u32,
    pub cost: i64,
    pub description: String,
    pub location: u64,
}

/// The caller-supplied fields of a trip.
#[derive(Debug, Clone, PartialEq)]
pub struct TripPayload {
    pub name: String,
    pub start_date: String,
    pub end_date: String,
    pub budget: i64,
}

/// The caller-supplied fields of a transportation leg.
#[derive(Debug, Clone, PartialEq)]
pub struct TransportationPayload {
    pub type_: String,
    pub from: u64,
    pub to: u64,
    pub cost: i64,
    pub date: String,
}

/// What a store operation reports instead of a result.
#[derive(Debug, Clone, PartialEq, Eq)]
pub enum Error {
    /// The id is absent from its table, or a listing found no rows.
    NotFound { msg: String },
    /// The record would encode to more than `MAX_RECORD_SIZE` bytes, or the
    /// kind's identifiers are used up.
    StorageLimit { msg: String },
    /// A stored record is not the encoding of an entity under its own id.
    Decode { msg: String },
}

} // verus!
