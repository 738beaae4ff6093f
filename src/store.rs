use vstd::prelude::*;
use crate::codec::{
    enc_activity, enc_location, enc_transportation, enc_trip, decode_activity, decode_location,
    decode_transportation, decode_trip, encode_activity, encode_location, encode_transportation,
    encode_trip, lemma_trip_lists_within_encoding, parse_activity, parse_location,
    parse_transportation, parse_trip,
};
use crate::model::{
    Activity, ActivityPayload, ActivityView, Error, Location, LocationPayload, LocationView,
    MAX_RECORD_SIZE, Transportation, TransportationPayload, TransportationView, Trip, TripPayload,
    TripView, activity_views, location_views, transportation_views, trip_views,
};
use crate::totals::{
    activity_cost_sum, duration_sum, total_activity_cost, total_activity_duration,
    total_transportation_cost, transportation_cost_sum,
};
use crate::table::{Counter, Regions, Table, counter_region, counter_value, table_region, lists_in_order, table_contents};

verus! {

/// The regions of the durable memory. Each counter and table keeps its
/// region across versions: moving one would misread what is stored.
pub const LOCATION_IDS_REGION: u8 = 0;
pub const ACTIVITY_IDS_REGION: u8 = 1;
pub const TRIP_IDS_REGION: u8 = 2;
pub const TRANSPORTATION_IDS_REGION: u8 = 3;
pub const LOCATIONS_REGION: u8 = 4;
pub const ACTIVITIES_REGION: u8 = 5;
pub const TRIPS_REGION: u8 = 6;
pub const TRANSPORTATIONS_REGION: u8 = 7;

/// The regions of the counters and then of the tables, in the order of
/// `Store::regions`.
pub open spec fn fixed_layout() -> Seq<u8> {
    seq![
        LOCATION_IDS_REGION,
        ACTIVITY_IDS_REGION,
        TRIP_IDS_REGION,
        TRANSPORTATION_IDS_REGION,
        LOCATIONS_REGION,
        ACTIVITIES_REGION,
        TRIPS_REGION,
        TRANSPORTATIONS_REGION,
    ]
}

/// `s` lists the values of `m` in ascending order of their keys, where `key`
/// gives the key that each value is stored under.
pub open spec fn listed_by_id<V>(m: Map<u64, V>, s: Seq<V>, key: spec_fn(V) -> u64) -> bool {
    &&& forall|i: int, j: int| 0 <= i < j < s.len() ==> key(s[i]) < key(s[j])
    &&& forall|i: int|
        0 <= i < s.len() ==> m.contains_key(#[trigger] key(s[i])) && m[key(s[i])] == s[i]
    &&& forall|k: u64| m.contains_key(k) ==> exists|i: int| 0 <= i < s.len() && #[trigger] key(s[i]) == k
}

/// A table holds exactly the encodings of `model`, each under its own id and
/// within the size bound, and no id above `counter`.
pub open spec fn table_matches<V>(
    contents: Map<u64, Seq<u8>>,
    model: Map<u64, V>,
    enc: spec_fn(V) -> Seq<u8>,
    key: spec_fn(V) -> u64,
    counter: u64,
) -> bool {
    &&& contents.dom() == model.dom()
    &&& forall|k: u64| #[trigger]
        model.contains_key(k) ==> {
            &&& contents[k] == enc(model[k])
            &&& key(model[k]) == k
            &&& enc(model[k]).len() <= MAX_RECORD_SIZE
            &&& 1 <= k <= counter
        }
}

/// `contents` holds exactly the encodings of the locations of `m`, as
/// `table_matches` says.
pub open spec fn location_table_matches(
    contents: Map<u64, Seq<u8>>,
    m: Map<u64, LocationView>,
    counter: u64,
) -> bool {
    table_matches(contents, m, |x: LocationView| enc_location(x), |x: LocationView| location_key(x), counter)
}

/// `contents` holds exactly the encodings of the activities of `m`, as
/// `table_matches` says.
pub open spec fn activity_table_matches(
    contents: Map<u64, Seq<u8>>,
    m: Map<u64, ActivityView>,
    counter: u64,
) -> bool {
    table_matches(contents, m, |x: ActivityView| enc_activity(x), |x: ActivityView| activity_key(x), counter)
}

/// `contents` holds exactly the encodings of the trips of `m`, as
/// `table_matches` says.
pub open spec fn trip_table_matches(
    contents: Map<u64, Seq<u8>>,
    m: Map<u64, TripView>,
    counter: u64,
) -> bool {
    table_matches(contents, m, |x: TripView| enc_trip(x), |x: TripView| trip_key(x), counter)
}

/// `contents` holds exactly the encodings of the transportations of `m`, as
/// `table_matches` says.
pub open spec fn transportation_table_matches(
    contents: Map<u64, Seq<u8>>,
    m: Map<u64, TransportationView>,
    counter: u64,
) -> bool {
    table_matches(contents, m, |x: TransportationView| enc_transportation(x), |x: TransportationView| transportation_key(x), counter)
}

/// A new location built from `p` under `id`, with nothing attached.
pub open spec fn created_location(id: u64, p: LocationPayload) -> LocationView {
    LocationView {
        id,
        name: p.name@,
        country: p.country@,
        site: p.site@,
        description: p.description@,
        activities: Seq::empty(),
    }
}

/// `x` with its scalar fields taken from `p`; its id and what is attached to it kept.
pub open spec fn updated_location(x: LocationView, p: LocationPayload) -> LocationView {
    LocationView {
        id: x.id,
        name: p.name@,
        country: p.country@,
        site: p.site@,
        description: p.description@,
        activities: x.activities,
    }
}

pub open spec fn location_key(x: LocationView) -> u64 {
    x.id
}

/// A new activity built from `p` under `id`.
pub open spec fn created_activity(id: u64, p: ActivityPayload) -> ActivityView {
    ActivityView {
        id,
        name: p.name@,
        duration: p.duration,
        cost: p.cost,
        description: p.description@,
        location: p.location,
    }
}

/// `x` with its scalar fields taken from `p`; its id kept.
pub open spec fn updated_activity(x: ActivityView, p: ActivityPayload) -> ActivityView {
    ActivityView {
        id: x.id,
        name: p.name@,
        duration: p.duration,
        cost: p.cost,
        description: p.description@,
        location: p.location,
    }
}

pub open spec fn activity_key(x: ActivityView) -> u64 {
    x.id
}

/// A new trip built from `p` under `id`, with nothing attached.
pub open spec fn created_trip(id: u64, p: TripPayload) -> TripView {
    TripView {
        id,
        name: p.name@,
        start_date: p.start_date@,
        end_date: p.end_date@,
        destinations: Seq::empty(),
        activities: Seq::empty(),
        budget: p.budget,
        transportation: Seq::empty(),
    }
}

/// `x` with its scalar fields taken from `p`; its id and what is attached to it kept.
pub open spec fn updated_trip(x: TripView, p: TripPayload) -> TripView {
    TripView {
        id: x.id,
        name: p.name@,
        start_date: p.start_date@,
        end_date: p.end_date@,
        destinations: x.destinations,
        activities: x.activities,
        budget: p.budget,
        transportation: x.transportation,
    }
}

pub open spec fn trip_key(x: TripView) -> u64 {
    x.id
}

/// A new transportation built from `p` under `id`.
pub open spec fn created_transportation(id: u64, p: TransportationPayload) -> TransportationView {
    TransportationView {
        id,
        type_: p.type_@,
        from: p.from,
        to: p.to,
        cost: p.cost,
        date: p.date@,
    }
}

/// `x` with its scalar fields taken from `p`; its id kept.
pub open spec fn updated_transportation(x: TransportationView, p: TransportationPayload) -> TransportationView {
    TransportationView {
        id: x.id,
        type_: p.type_@,
        from: p.from,
        to: p.to,
        cost: p.cost,
        date: p.date@,
    }
}

pub open spec fn transportation_key(x: TransportationView) -> u64 {
    x.id
}

/// `l` with a copy of `a` appended to its activities.
pub open spec fn location_with_activity(l: LocationView, a: ActivityView) -> LocationView {
    LocationView { activities: l.activities.push(a), ..l }
}

/// `t` with a copy of `l` appended to its destinations.
pub open spec fn trip_with_destination(t: TripView, l: LocationView) -> TripView {
    TripView { destinations: t.destinations.push(l), ..t }
}

/// `t` with a copy of `a` appended to its activities.
pub open spec fn trip_with_activity(t: TripView, a: ActivityView) -> TripView {
    TripView { activities: t.activities.push(a), ..t }
}

/// `t` with a copy of `x` appended to its transportation.
pub open spec fn trip_with_transportation(t: TripView, x: TransportationView) -> TripView {
    TripView { transportation: t.transportation.push(x), ..t }
}

/// The entity tables and their id counters, each in a region of its own of
/// one durable memory.
pub struct Store {
    location_ids: Counter,
    activity_ids: Counter,
    trip_ids: Counter,
    transportation_ids: Counter,
    locations: Table,
    activities: Table,
    trips: Table,
    transportations: Table,
    location_model: Ghost<Map<u64, LocationView>>,
    activity_model: Ghost<Map<u64, ActivityView>>,
    trip_model: Ghost<Map<u64, TripView>>,
    transportation_model: Ghost<Map<u64, TransportationView>>,
}

fn not_found(msg: &str) -> (r: Error)
    ensures
        r is NotFound,
{
    Error::NotFound { msg: msg.to_owned() }
}


/// The character of a decimal digit.
pub open spec fn digit_char(d: nat) -> char {
    if d == 0 {
        '0'
    } else if d == 1 {
        '1'
    } else if d == 2 {
        '2'
    } else if d == 3 {
        '3'
    } else if d == 4 {
        '4'
    } else if d == 5 {
        '5'
    } else if d == 6 {
        '6'
    } else if d == 7 {
        '7'
    } else if d == 8 {
        '8'
    } else {
        '9'
    }
}

/// The decimal digits of `n`, most significant first, with no leading zero.
pub open spec fn decimal_digits(n: nat) -> Seq<char>
    decreases n,
{
    if n < 10 {
        seq![digit_char(n)]
    } else {
        decimal_digits(n / 10).push(digit_char(n % 10))
    }
}

/// The message that reports an id of a kind as not stored.
pub open spec fn id_message_text(kind: Seq<char>, id: u64) -> Seq<char> {
    kind + " with the id="@ + decimal_digits(id as nat) + " not found"@
}

/// Relies on `u64::to_string` (its `Display`): the decimal digits of `n`.
#[verifier::external_body]
fn decimal(n: u64) -> (r: String)
    ensures
        r@ == decimal_digits(n as nat),
{
    n.to_string()
}

/// Relies on `String::push_str`: appends `t` to `s`.
#[verifier::external_body]
fn push_str(s: &mut String, t: &str)
    ensures
        final(s)@ == old(s)@ + t@,
{
    s.push_str(t)
}

fn id_message(kind: &str, id: u64) -> (r: String)
    ensures
        r@ == id_message_text(kind@, id),
{
    let mut msg = kind.to_owned();
    push_str(&mut msg, " with the id=");
    let digits = decimal(id);
    push_str(&mut msg, digits.as_str());
    push_str(&mut msg, " not found");
    msg
}

fn not_found_id(kind: &str, id: u64) -> (r: Error)
    ensures
        r matches Error::NotFound { msg } && msg@ == id_message_text(kind@, id),
{
    Error::NotFound { msg: id_message(kind, id) }
}

fn storage_limit(msg: &str) -> (r: Error)
    ensures
        r is StorageLimit,
{
    Error::StorageLimit { msg: msg.to_owned() }
}

/// The locations that `t` holds, when every entry is the encoding of a location
/// under its own id, within the size bound, and no id is above `counter`.
fn restore_locations(t: &Table, counter: u64) -> (r: Option<Ghost<Map<u64, LocationView>>>)
    ensures
        r matches Some(m) ==> location_table_matches(table_contents(*t), m@, counter),
        r is Some <==> exists|mm: Map<u64, LocationView>| #[trigger] location_table_matches(table_contents(*t), mm, counter),
{
    let entries = t.entries();
    let ghost mut m: Map<u64, LocationView> = Map::empty();
    let mut i: usize = 0;
    while i < entries.len()
        invariant
            i <= entries.len(),
            lists_in_order(table_contents(*t), entries@),
            forall|j: int| 0 <= j < i ==> m.contains_key(#[trigger] entries@[j].0),
            forall|k: u64| #[trigger]
                m.contains_key(k) ==> {
                    &&& table_contents(*t).contains_key(k)
                    &&& table_contents(*t)[k] == enc_location(m[k])
                    &&& location_key(m[k]) == k
                    &&& enc_location(m[k]).len() <= MAX_RECORD_SIZE
                    &&& 1 <= k <= counter
                },
        decreases entries.len() - i,
    {
        let id = entries[i].0;
        let bytes = &entries[i].1;
        match parse_location(bytes) {
            Some(x) => {
                if x.id != id || bytes.len() > MAX_RECORD_SIZE || id == 0 || id > counter {
                    proof {
                        assert forall|mm: Map<u64, LocationView>| !(#[trigger] location_table_matches(table_contents(*t), mm, counter)) by {
                            if location_table_matches(table_contents(*t), mm, counter) {
                                assert(table_contents(*t).contains_key(id));
                                assert(mm.contains_key(id));
                                assert(table_contents(*t)[id] == bytes@);
                            }
                        }
                    }
                    return None;
                }
                proof {
                    m = m.insert(id, x@);
                }
            },
            None => {
                proof {
                    assert forall|mm: Map<u64, LocationView>| !(#[trigger] location_table_matches(table_contents(*t), mm, counter)) by {
                        if location_table_matches(table_contents(*t), mm, counter) {
                            assert(table_contents(*t).contains_key(id));
                            assert(mm.contains_key(id));
                            assert(table_contents(*t)[id] == bytes@);
                        }
                    }
                }
                return None;
            },
        }
        i += 1;
    }
    proof {
        assert forall|k: u64| table_contents(*t).contains_key(k) implies m.contains_key(k) by {
            let j = choose|j: int| 0 <= j < entries@.len() && #[trigger] entries@[j].0 == k;
            assert(m.contains_key(entries@[j].0));
        }
        assert(table_contents(*t).dom() =~= m.dom());
    }
    assert(location_table_matches(table_contents(*t), m, counter));
    Some(Ghost(m))
}

/// The activities that `t` holds, when every entry is the encoding of an activity
/// under its own id, within the size bound, and no id is above `counter`.
fn restore_activities(t: &Table, counter: u64) -> (r: Option<Ghost<Map<u64, ActivityView>>>)
    ensures
        r matches Some(m) ==> activity_table_matches(table_contents(*t), m@, counter),
        r is Some <==> exists|mm: Map<u64, ActivityView>| #[trigger] activity_table_matches(table_contents(*t), mm, counter),
{
    let entries = t.entries();
    let ghost mut m: Map<u64, ActivityView> = Map::empty();
    let mut i: usize = 0;
    while i < entries.len()
        invariant
            i <= entries.len(),
            lists_in_order(table_contents(*t), entries@),
            forall|j: int| 0 <= j < i ==> m.contains_key(#[trigger] entries@[j].0),
            forall|k: u64| #[trigger]
                m.contains_key(k) ==> {
                    &&& table_contents(*t).contains_key(k)
                    &&& table_contents(*t)[k] == enc_activity(m[k])
                    &&& activity_key(m[k]) == k
                    &&& enc_activity(m[k]).len() <= MAX_RECORD_SIZE
                    &&& 1 <= k <= counter
                },
        decreases entries.len() - i,
    {
        let id = entries[i].0;
        let bytes = &entries[i].1;
        match parse_activity(bytes) {
            Some(x) => {
                if x.id != id || bytes.len() > MAX_RECORD_SIZE || id == 0 || id > counter {
                    proof {
                        assert forall|mm: Map<u64, ActivityView>| !(#[trigger] activity_table_matches(table_contents(*t), mm, counter)) by {
                            if activity_table_matches(table_contents(*t), mm, counter) {
                                assert(table_contents(*t).contains_key(id));
                                assert(mm.contains_key(id));
                                assert(table_contents(*t)[id] == bytes@);
                            }
                        }
                    }
                    return None;
                }
                proof {
                    m = m.insert(id, x@);
                }
            },
            None => {
                proof {
                    assert forall|mm: Map<u64, ActivityView>| !(#[trigger] activity_table_matches(table_contents(*t), mm, counter)) by {
                        if activity_table_matches(table_contents(*t), mm, counter) {
                            assert(table_contents(*t).contains_key(id));
                            assert(mm.contains_key(id));
                            assert(table_contents(*t)[id] == bytes@);
                        }
                    }
                }
                return None;
            },
        }
        i += 1;
    }
    proof {
        assert forall|k: u64| table_contents(*t).contains_key(k) implies m.contains_key(k) by {
            let j = choose|j: int| 0 <= j < entries@.len() && #[trigger] entries@[j].0 == k;
            assert(m.contains_key(entries@[j].0));
        }
        assert(table_contents(*t).dom() =~= m.dom());
    }
    assert(activity_table_matches(table_contents(*t), m, counter));
    Some(Ghost(m))
}

/// The trips that `t` holds, when every entry is the encoding of a trip
/// under its own id, within the size bound, and no id is above `counter`.
fn restore_trips(t: &Table, counter: u64) -> (r: Option<Ghost<Map<u64, TripView>>>)
    ensures
        r matches Some(m) ==> trip_table_matches(table_contents(*t), m@, counter),
        r is Some <==> exists|mm: Map<u64, TripView>| #[trigger] trip_table_matches(table_contents(*t), mm, counter),
{
    let entries = t.entries();
    let ghost mut m: Map<u64, TripView> = Map::empty();
    let mut i: usize = 0;
    while i < entries.len()
        invariant
            i <= entries.len(),
            lists_in_order(table_contents(*t), entries@),
            forall|j: int| 0 <= j < i ==> m.contains_key(#[trigger] entries@[j].0),
            forall|k: u64| #[trigger]
                m.contains_key(k) ==> {
                    &&& table_contents(*t).contains_key(k)
                    &&& table_contents(*t)[k] == enc_trip(m[k])
                    &&& trip_key(m[k]) == k
                    &&& enc_trip(m[k]).len() <= MAX_RECORD_SIZE
                    &&& 1 <= k <= counter
                },
        decreases entries.len() - i,
    {
        let id = entries[i].0;
        let bytes = &entries[i].1;
        match parse_trip(bytes) {
            Some(x) => {
                if x.id != id || bytes.len() > MAX_RECORD_SIZE || id == 0 || id > counter {
                    proof {
                        assert forall|mm: Map<u64, TripView>| !(#[trigger] trip_table_matches(table_contents(*t), mm, counter)) by {
                            if trip_table_matches(table_contents(*t), mm, counter) {
                                assert(table_contents(*t).contains_key(id));
                                assert(mm.contains_key(id));
                                assert(table_contents(*t)[id] == bytes@);
                            }
                        }
                    }
                    return None;
                }
                proof {
                    m = m.insert(id, x@);
                }
            },
            None => {
                proof {
                    assert forall|mm: Map<u64, TripView>| !(#[trigger] trip_table_matches(table_contents(*t), mm, counter)) by {
                        if trip_table_matches(table_contents(*t), mm, counter) {
                            assert(table_contents(*t).contains_key(id));
                            assert(mm.contains_key(id));
                            assert(table_contents(*t)[id] == bytes@);
                        }
                    }
                }
                return None;
            },
        }
        i += 1;
    }
    proof {
        assert forall|k: u64| table_contents(*t).contains_key(k) implies m.contains_key(k) by {
            let j = choose|j: int| 0 <= j < entries@.len() && #[trigger] entries@[j].0 == k;
            assert(m.contains_key(entries@[j].0));
        }
        assert(table_contents(*t).dom() =~= m.dom());
    }
    assert(trip_table_matches(table_contents(*t), m, counter));
    Some(Ghost(m))
}

/// The transportations that `t` holds, when every entry is the encoding of a transportation
/// under its own id, within the size bound, and no id is above `counter`.
fn restore_transportations(t: &Table, counter: u64) -> (r: Option<Ghost<Map<u64, TransportationView>>>)
    ensures
        r matches Some(m) ==> transportation_table_matches(table_contents(*t), m@, counter),
        r is Some <==> exists|mm: Map<u64, TransportationView>| #[trigger] transportation_table_matches(table_contents(*t), mm, counter),
{
    let entries = t.entries();
    let ghost mut m: Map<u64, TransportationView> = Map::empty();
    let mut i: usize = 0;
    while i < entries.len()
        invariant
            i <= entries.len(),
            lists_in_order(table_contents(*t), entries@),
            forall|j: int| 0 <= j < i ==> m.contains_key(#[trigger] entries@[j].0),
            forall|k: u64| #[trigger]
                m.contains_key(k) ==> {
                    &&& table_contents(*t).contains_key(k)
                    &&& table_contents(*t)[k] == enc_transportation(m[k])
                    &&& transportation_key(m[k]) == k
                    &&& enc_transportation(m[k]).len() <= MAX_RECORD_SIZE
                    &&& 1 <= k <= counter
                },
        decreases entries.len() - i,
    {
        let id = entries[i].0;
        let bytes = &entries[i].1;
        match parse_transportation(bytes) {
            Some(x) => {
                if x.id != id || bytes.len() > MAX_RECORD_SIZE || id == 0 || id > counter {
                    proof {
                        assert forall|mm: Map<u64, TransportationView>| !(#[trigger] transportation_table_matches(table_contents(*t), mm, counter)) by {
                            if transportation_table_matches(table_contents(*t), mm, counter) {
                                assert(table_contents(*t).contains_key(id));
                                assert(mm.contains_key(id));
                                assert(table_contents(*t)[id] == bytes@);
                            }
                        }
                    }
                    return None;
                }
                proof {
                    m = m.insert(id, x@);
                }
            },
            None => {
                proof {
                    assert forall|mm: Map<u64, TransportationView>| !(#[trigger] transportation_table_matches(table_contents(*t), mm, counter)) by {
                        if transportation_table_matches(table_contents(*t), mm, counter) {
                            assert(table_contents(*t).contains_key(id));
                            assert(mm.contains_key(id));
                            assert(table_contents(*t)[id] == bytes@);
                        }
                    }
                }
                return None;
            },
        }
        i += 1;
    }
    proof {
        assert forall|k: u64| table_contents(*t).contains_key(k) implies m.contains_key(k) by {
            let j = choose|j: int| 0 <= j < entries@.len() && #[trigger] entries@[j].0 == k;
            assert(m.contains_key(entries@[j].0));
        }
        assert(table_contents(*t).dom() =~= m.dom());
    }
    assert(transportation_table_matches(table_contents(*t), m, counter));
    Some(Ghost(m))
}

impl Store {
    /// The stored locations, by id.
    pub closed spec fn locations(&self) -> Map<u64, LocationView> {
        self.location_model@
    }

    /// The last location id handed out (0 before the first).
    pub closed spec fn location_counter(&self) -> u64 {
        counter_value(self.location_ids)
    }

    /// `self` and `o` agree on the locations and their counter.
    pub open spec fn same_locations(&self, o: &Store) -> bool {
        self.locations() == o.locations() && self.location_counter() == o.location_counter()
    }

    /// The stored activities, by id.
    pub closed spec fn activities(&self) -> Map<u64, ActivityView> {
        self.activity_model@
    }

    /// The last activity id handed out (0 before the first).
    pub closed spec fn activity_counter(&self) -> u64 {
        counter_value(self.activity_ids)
    }

    /// `self` and `o` agree on the activities and their counter.
    pub open spec fn same_activities(&self, o: &Store) -> bool {
        self.activities() == o.activities() && self.activity_counter() == o.activity_counter()
    }

    /// The stored trips, by id.
    pub closed spec fn trips(&self) -> Map<u64, TripView> {
        self.trip_model@
    }

    /// The last trip id handed out (0 before the first).
    pub closed spec fn trip_counter(&self) -> u64 {
        counter_value(self.trip_ids)
    }

    /// `self` and `o` agree on the trips and their counter.
    pub open spec fn same_trips(&self, o: &Store) -> bool {
        self.trips() == o.trips() && self.trip_counter() == o.trip_counter()
    }

    /// The stored transportations, by id.
    pub closed spec fn transportations(&self) -> Map<u64, TransportationView> {
        self.transportation_model@
    }

    /// The last transportation id handed out (0 before the first).
    pub closed spec fn transportation_counter(&self) -> u64 {
        counter_value(self.transportation_ids)
    }

    /// `self` and `o` agree on the transportations and their counter.
    pub open spec fn same_transportations(&self, o: &Store) -> bool {
        self.transportations() == o.transportations() && self.transportation_counter() == o.transportation_counter()
    }

    /// `self` and `o` agree on every table and counter.
    pub open spec fn same_state(&self, o: &Store) -> bool {
        &&& self.same_locations(o)
        &&& self.same_activities(o)
        &&& self.same_trips(o)
        &&& self.same_transportations(o)
    }

    /// Every table holds the encodings of its entities, within the size
    /// bound, under ids that its counter has handed out.
    pub closed spec fn wf(&self) -> bool {
        &&& location_table_matches(table_contents(self.locations), self.location_model@, counter_value(self.location_ids))
        &&& activity_table_matches(table_contents(self.activities), self.activity_model@, counter_value(self.activity_ids))
        &&& trip_table_matches(table_contents(self.trips), self.trip_model@, counter_value(self.trip_ids))
        &&& transportation_table_matches(table_contents(self.transportations), self.transportation_model@, counter_value(self.transportation_ids))
    }

    /// The regions that the counters and then the tables live in, kinds in
    /// the order location, activity, trip, transportation.
    pub closed spec fn regions(&self) -> Seq<u8> {
        seq![
            counter_region(self.location_ids),
            counter_region(self.activity_ids),
            counter_region(self.trip_ids),
            counter_region(self.transportation_ids),
            table_region(self.locations),
            table_region(self.activities),
            table_region(self.trips),
            table_region(self.transportations),
        ]
    }

    /// Every stored entity sits under its own id, which its kind's counter
    /// has handed out, and encodes within `MAX_RECORD_SIZE` bytes.
    pub proof fn lemma_stored_records(&self)
        requires
            self.wf(),
        ensures
            forall|k: u64| #[trigger]
                self.locations().contains_key(k) ==> {
                    &&& self.locations()[k].id == k
                    &&& 1 <= k <= self.location_counter()
                    &&& enc_location(self.locations()[k]).len() <= MAX_RECORD_SIZE
                },
            forall|k: u64| #[trigger]
                self.activities().contains_key(k) ==> {
                    &&& self.activities()[k].id == k
                    &&& 1 <= k <= self.activity_counter()
                    &&& enc_activity(self.activities()[k]).len() <= MAX_RECORD_SIZE
                },
            forall|k: u64| #[trigger]
                self.trips().contains_key(k) ==> {
                    &&& self.trips()[k].id == k
                    &&& 1 <= k <= self.trip_counter()
                    &&& enc_trip(self.trips()[k]).len() <= MAX_RECORD_SIZE
                },
            forall|k: u64| #[trigger]
                self.transportations().contains_key(k) ==> {
                    &&& self.transportations()[k].id == k
                    &&& 1 <= k <= self.transportation_counter()
                    &&& enc_transportation(self.transportations()[k]).len() <= MAX_RECORD_SIZE
                },
    {
    }

    /// An empty store: empty tables and counters at 0, created afresh in the
    /// regions of the durable memory, replacing whatever they held. `restore`
    /// loads what they hold instead. On the canister the durable memory is the
    /// one stable memory, so one store per process is assumed; on a native
    /// target each store has a memory of its own.
    pub fn new() -> (r: Store)
        ensures
            r.wf(),
            r.regions() == fixed_layout(),
            r.locations().is_empty(),
            r.location_counter() == 0,
            r.activities().is_empty(),
            r.activity_counter() == 0,
            r.trips().is_empty(),
            r.trip_counter() == 0,
            r.transportations().is_empty(),
            r.transportation_counter() == 0,
    {
        let mut regions = Regions::new();
        let r = Store {
            location_ids: Counter::new(&mut regions, LOCATION_IDS_REGION),
            activity_ids: Counter::new(&mut regions, ACTIVITY_IDS_REGION),
            trip_ids: Counter::new(&mut regions, TRIP_IDS_REGION),
            transportation_ids: Counter::new(&mut regions, TRANSPORTATION_IDS_REGION),
            locations: Table::new(&mut regions, LOCATIONS_REGION),
            activities: Table::new(&mut regions, ACTIVITIES_REGION),
            trips: Table::new(&mut regions, TRIPS_REGION),
            transportations: Table::new(&mut regions, TRANSPORTATIONS_REGION),
            location_model: Ghost(Map::empty()),
            activity_model: Ghost(Map::empty()),
            trip_model: Ghost(Map::empty()),
            transportation_model: Ghost(Map::empty()),
        };
        assert(r.locations() =~= Map::empty());
        assert(r.activities() =~= Map::empty());
        assert(r.trips() =~= Map::empty());
        assert(r.transportations() =~= Map::empty());
        r
    }

    /// Loads the tables and counters that the durable memory holds, validating
    /// every stored record; `Decode` when one is not the encoding of an entity
    /// under its own id, within the size bound, at most its counter. As for
    /// `new`, one store per process is assumed.
    pub fn restore() -> (r: Result<Store, Error>)
        ensures
            r matches Ok(s) ==> s.wf() && s.regions() == fixed_layout(),
            r matches Err(e) ==> e is Decode,
    {
        let mut regions = Regions::new();
        let location_ids = Counter::open(&mut regions, LOCATION_IDS_REGION);
        let locations = Table::open(&mut regions, LOCATIONS_REGION);
        let location_model = match restore_locations(&locations, location_ids.get()) {
            Some(m) => m,
            None => {
                return Err(Error::Decode { msg: "stored location is malformed".to_owned() });
            },
        };
        let activity_ids = Counter::open(&mut regions, ACTIVITY_IDS_REGION);
        let activities = Table::open(&mut regions, ACTIVITIES_REGION);
        let activity_model = match restore_activities(&activities, activity_ids.get()) {
            Some(m) => m,
            None => {
                return Err(Error::Decode { msg: "stored activity is malformed".to_owned() });
            },
        };
        let trip_ids = Counter::open(&mut regions, TRIP_IDS_REGION);
        let trips = Table::open(&mut regions, TRIPS_REGION);
        let trip_model = match restore_trips(&trips, trip_ids.get()) {
            Some(m) => m,
            None => {
                return Err(Error::Decode { msg: "stored trip is malformed".to_owned() });
            },
        };
        let transportation_ids = Counter::open(&mut regions, TRANSPORTATION_IDS_REGION);
        let transportations = Table::open(&mut regions, TRANSPORTATIONS_REGION);
        let transportation_model = match restore_transportations(&transportations, transportation_ids.get()) {
            Some(m) => m,
            None => {
                return Err(Error::Decode { msg: "stored transportation is malformed".to_owned() });
            },
        };
        Ok(
            Store {
                location_ids,
                activity_ids,
                trip_ids,
                transportation_ids,
                locations,
                activities,
                trips,
                transportations,
                location_model,
                activity_model,
                trip_model,
                transportation_model,
            },
        )
    }

    /// Every location, in ascending id order; `NotFound` when there is none.
    pub fn get_locations(&self) -> (r: Result<Vec<Location>, Error>)
        requires
            self.wf(),
        ensures
            r is Err <==> self.locations().is_empty(),
            r matches Err(e) ==> e is NotFound,
            r matches Ok(v) ==> listed_by_id(
                self.locations(),
                location_views(v@),
                |x: LocationView| location_key(x),
            ),
    {
        let entries = self.locations.entries();
        let ghost m = self.location_model@;
        let mut out: Vec<Location> = Vec::new();
        let mut i: usize = 0;
        while i < entries.len()
            invariant
                self.wf(),
                m == self.location_model@,
                i <= entries.len(),
                lists_in_order(table_contents(self.locations), entries@),
                out@.len() == i,
                forall|j: int| 0 <= j < i ==> #[trigger] out@[j]@ == m[entries@[j].0],
            decreases entries.len() - i,
        {
            let ghost k = entries@[i as int].0;
            let x = decode_location(&entries[i].1, Ghost(m[k]));
            out.push(x);
            i += 1;
        }
        if out.len() == 0 {
            proof {
                if !m.is_empty() {
                    let k = m.dom().choose();
                    assert(m.contains_key(k));
                }
            }
            return Err(not_found("No locations found"));
        }
        assert(m.contains_key(entries@[0].0));
        proof {
            let s = location_views(out@);
            assert forall|j: int| 0 <= j < s.len() implies m.contains_key(#[trigger] location_key(s[j]))
                && m[location_key(s[j])] == s[j] by {
                assert(m.contains_key(entries@[j].0));
            }
            assert forall|k: u64| m.contains_key(k) implies exists|j: int|
                0 <= j < s.len() && #[trigger] location_key(s[j]) == k by {
                let j = choose|j: int| 0 <= j < entries@.len() && #[trigger] entries@[j].0 == k;
                assert(location_key(s[j]) == k);
            }
            assert forall|a: int, b: int| 0 <= a < b < s.len() implies location_key(s[a]) < location_key(
                s[b],
            ) by {
                assert(m.contains_key(entries@[a].0));
                assert(m.contains_key(entries@[b].0));
            }
        }
        Ok(out)
    }

    /// The location stored under `id`; `NotFound` when there is none.
    pub fn get_location_by_id(&self, id: u64) -> (r: Result<Location, Error>)
        requires
            self.wf(),
        ensures
            r is Err <==> !self.locations().contains_key(id),
            r matches Err(e) ==> e is NotFound,
            r matches Ok(x) ==> x@ == self.locations()[id],
            r matches Ok(x) ==> x.id == id,
            r matches Ok(x) ==> enc_location(x@).len() <= MAX_RECORD_SIZE,
    {
        match self.locations.get(id) {
            Some(b) => Ok(decode_location(&b, Ghost(self.location_model@[id]))),
            None => Err(not_found_id("Location", id)),
        }
    }

    /// Stores a new location built from `payload` under the next id, and returns
    /// it. `StorageLimit`, with nothing changed, when the ids are used up or
    /// the record would not fit.
    pub fn add_location(&mut self, payload: LocationPayload) -> (r: Result<Location, Error>)
        requires
            old(self).wf(),
        ensures
            final(self).wf(),
            final(self).location_counter() >= old(self).location_counter(),
            r is Err <==> (old(self).location_counter() == u64::MAX || enc_location(
                created_location((old(self).location_counter() + 1) as u64, payload),
            ).len() > MAX_RECORD_SIZE),
            r matches Err(e) ==> e is StorageLimit && final(self).same_state(&*old(self)),
            r matches Ok(x) ==> {
                &&& x.id == old(self).location_counter() + 1
                &&& !old(self).locations().contains_key(x.id)
                &&& x@ == created_location(x.id, payload)
                &&& final(self).location_counter() == x.id
                &&& final(self).locations() == old(self).locations().insert(x.id, x@)
                &&& final(self).same_activities(&*old(self))
                &&& final(self).same_trips(&*old(self))
                &&& final(self).same_transportations(&*old(self))
            },
    {
        let c = self.location_ids.get();
        if c == u64::MAX {
            return Err(storage_limit("location ids exhausted"));
        }
        let id = c + 1;
        let x = Location {
            id,
            name: payload.name,
            country: payload.country,
            site: payload.site,
            description: payload.description,
            activities: Vec::new(),
        };
        assert(activity_views(x.activities@) =~= Seq::<ActivityView>::empty());
        let bytes = encode_location(&x);
        if bytes.len() > MAX_RECORD_SIZE {
            return Err(storage_limit("location record too large"));
        }
        self.location_ids.set(id);
        self.locations.insert(id, bytes);
        self.location_model = Ghost(self.location_model@.insert(id, x@));
        Ok(x)
    }

    /// Overwrites the scalar fields of the location stored under `id` with those
    /// of `payload`, keeping what is attached to it, and returns it.
    /// `NotFound` when there is none; `StorageLimit` when the record would
    /// not fit. Nothing changes on failure.
    pub fn update_location(&mut self, id: u64, payload: LocationPayload) -> (r: Result<Location, Error>)
        requires
            old(self).wf(),
        ensures
            final(self).wf(),
            r is Err <==> (!old(self).locations().contains_key(id) || enc_location(
                updated_location(old(self).locations()[id], payload),
            ).len() > MAX_RECORD_SIZE),
            r matches Err(e) ==> final(self).same_state(&*old(self)) && (e is NotFound
                <==> !old(self).locations().contains_key(id)),
            r matches Ok(x) ==> {
                &&& x@ == updated_location(old(self).locations()[id], payload)
                &&& x.id == id
                &&& final(self).locations() == old(self).locations().insert(id, x@)
                &&& final(self).location_counter() == old(self).location_counter()
                &&& final(self).same_activities(&*old(self))
                &&& final(self).same_trips(&*old(self))
                &&& final(self).same_transportations(&*old(self))
            },
    {
        let b = match self.locations.get(id) {
            Some(b) => b,
            None => {
                return Err(not_found_id("Location", id));
            },
        };
        let mut x = decode_location(&b, Ghost(self.location_model@[id]));
        x.name = payload.name;
        x.country = payload.country;
        x.site = payload.site;
        x.description = payload.description;
        let bytes = encode_location(&x);
        if bytes.len() > MAX_RECORD_SIZE {
            return Err(storage_limit("location record too large"));
        }
        self.locations.insert(id, bytes);
        self.location_model = Ghost(self.location_model@.insert(id, x@));
        Ok(x)
    }

    /// Removes the location stored under `id`; `NotFound`, with nothing changed,
    /// when there is none. Copies of it attached elsewhere stay.
    pub fn delete_location(&mut self, id: u64) -> (r: Result<(), Error>)
        requires
            old(self).wf(),
        ensures
            final(self).wf(),
            r is Err <==> !old(self).locations().contains_key(id),
            r matches Err(e) ==> e is NotFound && final(self).same_state(&*old(self)),
            r is Ok ==> {
                &&& final(self).locations() == old(self).locations().remove(id)
                &&& final(self).location_counter() == old(self).location_counter()
                &&& final(self).same_activities(&*old(self))
                &&& final(self).same_trips(&*old(self))
                &&& final(self).same_transportations(&*old(self))
            },
    {
        match self.locations.remove(id) {
            Some(_) => {
                self.location_model = Ghost(self.location_model@.remove(id));
                Ok(())
            },
            None => {
                assert(table_contents(self.locations) =~= table_contents(old(self).locations));
                Err(not_found_id("Location", id))
            },
        }
    }

    /// Every activity, in ascending id order; `NotFound` when there is none.
    pub fn get_activities(&self) -> (r: Result<Vec<Activity>, Error>)
        requires
            self.wf(),
        ensures
            r is Err <==> self.activities().is_empty(),
            r matches Err(e) ==> e is NotFound,
            r matches Ok(v) ==> listed_by_id(
                self.activities(),
                activity_views(v@),
                |x: ActivityView| activity_key(x),
            ),
    {
        let entries = self.activities.entries();
        let ghost m = self.activity_model@;
        let mut out: Vec<Activity> = Vec::new();
        let mut i: usize = 0;
        while i < entries.len()
            invariant
                self.wf(),
                m == self.activity_model@,
                i <= entries.len(),
                lists_in_order(table_contents(self.activities), entries@),
                out@.len() == i,
                forall|j: int| 0 <= j < i ==> #[trigger] out@[j]@ == m[entries@[j].0],
            decreases entries.len() - i,
        {
            let ghost k = entries@[i as int].0;
            let x = decode_activity(&entries[i].1, Ghost(m[k]));
            out.push(x);
            i += 1;
        }
        if out.len() == 0 {
            proof {
                if !m.is_empty() {
                    let k = m.dom().choose();
                    assert(m.contains_key(k));
                }
            }
            return Err(not_found("No activities found"));
        }
        assert(m.contains_key(entries@[0].0));
        proof {
            let s = activity_views(out@);
            assert forall|j: int| 0 <= j < s.len() implies m.contains_key(#[trigger] activity_key(s[j]))
                && m[activity_key(s[j])] == s[j] by {
                assert(m.contains_key(entries@[j].0));
            }
            assert forall|k: u64| m.contains_key(k) implies exists|j: int|
                0 <= j < s.len() && #[trigger] activity_key(s[j]) == k by {
                let j = choose|j: int| 0 <= j < entries@.len() && #[trigger] entries@[j].0 == k;
                assert(activity_key(s[j]) == k);
            }
            assert forall|a: int, b: int| 0 <= a < b < s.len() implies activity_key(s[a]) < activity_key(
                s[b],
            ) by {
                assert(m.contains_key(entries@[a].0));
                assert(m.contains_key(entries@[b].0));
            }
        }
        Ok(out)
    }

    /// The activity stored under `id`; `NotFound` when there is none.
    pub fn get_activity_by_id(&self, id: u64) -> (r: Result<Activity, Error>)
        requires
            self.wf(),
        ensures
            r is Err <==> !self.activities().contains_key(id),
            r matches Err(e) ==> e is NotFound,
            r matches Ok(x) ==> x@ == self.activities()[id],
            r matches Ok(x) ==> x.id == id,
            r matches Ok(x) ==> enc_activity(x@).len() <= MAX_RECORD_SIZE,
    {
        match self.activities.get(id) {
            Some(b) => Ok(decode_activity(&b, Ghost(self.activity_model@[id]))),
            None => Err(not_found_id("Activity", id)),
        }
    }

    /// Stores a new activity built from `payload` under the next id, and returns
    /// it. `StorageLimit`, with nothing changed, when the ids are used up or
    /// the record would not fit.
    pub fn add_activity(&mut self, payload: ActivityPayload) -> (r: Result<Activity, Error>)
        requires
            old(self).wf(),
        ensures
            final(self).wf(),
            final(self).activity_counter() >= old(self).activity_counter(),
            r is Err <==> (old(self).activity_counter() == u64::MAX || enc_activity(
                created_activity((old(self).activity_counter() + 1) as u64, payload),
            ).len() > MAX_RECORD_SIZE),
            r matches Err(e) ==> e is StorageLimit && final(self).same_state(&*old(self)),
            r matches Ok(x) ==> {
                &&& x.id == old(self).activity_counter() + 1
                &&& !old(self).activities().contains_key(x.id)
                &&& x@ == created_activity(x.id, payload)
                &&& final(self).activity_counter() == x.id
                &&& final(self).activities() == old(self).activities().insert(x.id, x@)
                &&& final(self).same_locations(&*old(self))
                &&& final(self).same_trips(&*old(self))
                &&& final(self).same_transportations(&*old(self))
            },
    {
        let c = self.activity_ids.get();
        if c == u64::MAX {
            return Err(storage_limit("activity ids exhausted"));
        }
        let id = c + 1;
        let x = Activity {
            id,
            name: payload.name,
            duration: payload.duration,
            cost: payload.cost,
            description: payload.description,
            location: payload.location,
        };

        let bytes = encode_activity(&x);
        if bytes.len() > MAX_RECORD_SIZE {
            return Err(storage_limit("activity record too large"));
        }
        self.activity_ids.set(id);
        self.activities.insert(id, bytes);
        self.activity_model = Ghost(self.activity_model@.insert(id, x@));
        Ok(x)
    }

    /// Overwrites the scalar fields of the activity stored under `id` with those
    /// of `payload` and returns it.
    /// `NotFound` when there is none; `StorageLimit` when the record would
    /// not fit. Nothing changes on failure.
    pub fn update_activity(&mut self, id: u64, payload: ActivityPayload) -> (r: Result<Activity, Error>)
        requires
            old(self).wf(),
        ensures
            final(self).wf(),
            r is Err <==> (!old(self).activities().contains_key(id) || enc_activity(
                updated_activity(old(self).activities()[id], payload),
            ).len() > MAX_RECORD_SIZE),
            r matches Err(e) ==> final(self).same_state(&*old(self)) && (e is NotFound
                <==> !old(self).activities().contains_key(id)),
            r matches Ok(x) ==> {
                &&& x@ == updated_activity(old(self).activities()[id], payload)
                &&& x.id == id
                &&& final(self).activities() == old(self).activities().insert(id, x@)
                &&& final(self).activity_counter() == old(self).activity_counter()
                &&& final(self).same_locations(&*old(self))
                &&& final(self).same_trips(&*old(self))
                &&& final(self).same_transportations(&*old(self))
            },
    {
        let b = match self.activities.get(id) {
            Some(b) => b,
            None => {
                return Err(not_found_id("Activity", id));
            },
        };
        let mut x = decode_activity(&b, Ghost(self.activity_model@[id]));
        x.name = payload.name;
        x.duration = payload.duration;
        x.cost = payload.cost;
        x.description = payload.description;
        x.location = payload.location;
        let bytes = encode_activity(&x);
        if bytes.len() > MAX_RECORD_SIZE {
            return Err(storage_limit("activity record too large"));
        }
        self.activities.insert(id, bytes);
        self.activity_model = Ghost(self.activity_model@.insert(id, x@));
        Ok(x)
    }

    /// Removes the activity stored under `id`; `NotFound`, with nothing changed,
    /// when there is none. Copies of it attached elsewhere stay.
    pub fn delete_activity(&mut self, id: u64) -> (r: Result<(), Error>)
        requires
            old(self).wf(),
        ensures
            final(self).wf(),
            r is Err <==> !old(self).activities().contains_key(id),
            r matches Err(e) ==> e is NotFound && final(self).same_state(&*old(self)),
            r is Ok ==> {
                &&& final(self).activities() == old(self).activities().remove(id)
                &&& final(self).activity_counter() == old(self).activity_counter()
                &&& final(self).same_locations(&*old(self))
                &&& final(self).same_trips(&*old(self))
                &&& final(self).same_transportations(&*old(self))
            },
    {
        match self.activities.remove(id) {
            Some(_) => {
                self.activity_model = Ghost(self.activity_model@.remove(id));
                Ok(())
            },
            None => {
                assert(table_contents(self.activities) =~= table_contents(old(self).activities));
                Err(not_found_id("Activity", id))
            },
        }
    }

    /// Every trip, in ascending id order; `NotFound` when there is none.
    pub fn get_trips(&self) -> (r: Result<Vec<Trip>, Error>)
        requires
            self.wf(),
        ensures
            r is Err <==> self.trips().is_empty(),
            r matches Err(e) ==> e is NotFound,
            r matches Ok(v) ==> listed_by_id(
                self.trips(),
                trip_views(v@),
                |x: TripView| trip_key(x),
            ),
    {
        let entries = self.trips.entries();
        let ghost m = self.trip_model@;
        let mut out: Vec<Trip> = Vec::new();
        let mut i: usize = 0;
        while i < entries.len()
            invariant
                self.wf(),
                m == self.trip_model@,
                i <= entries.len(),
                lists_in_order(table_contents(self.trips), entries@),
                out@.len() == i,
                forall|j: int| 0 <= j < i ==> #[trigger] out@[j]@ == m[entries@[j].0],
            decreases entries.len() - i,
        {
            let ghost k = entries@[i as int].0;
            let x = decode_trip(&entries[i].1, Ghost(m[k]));
            out.push(x);
            i += 1;
        }
        if out.len() == 0 {
            proof {
                if !m.is_empty() {
                    let k = m.dom().choose();
                    assert(m.contains_key(k));
                }
            }
            return Err(not_found("No trips found"));
        }
        assert(m.contains_key(entries@[0].0));
        proof {
            let s = trip_views(out@);
            assert forall|j: int| 0 <= j < s.len() implies m.contains_key(#[trigger] trip_key(s[j]))
                && m[trip_key(s[j])] == s[j] by {
                assert(m.contains_key(entries@[j].0));
            }
            assert forall|k: u64| m.contains_key(k) implies exists|j: int|
                0 <= j < s.len() && #[trigger] trip_key(s[j]) == k by {
                let j = choose|j: int| 0 <= j < entries@.len() && #[trigger] entries@[j].0 == k;
                assert(trip_key(s[j]) == k);
            }
            assert forall|a: int, b: int| 0 <= a < b < s.len() implies trip_key(s[a]) < trip_key(
                s[b],
            ) by {
                assert(m.contains_key(entries@[a].0));
                assert(m.contains_key(entries@[b].0));
            }
        }
        Ok(out)
    }

    /// The trip stored under `id`; `NotFound` when there is none.
    pub fn get_trip_by_id(&self, id: u64) -> (r: Result<Trip, Error>)
        requires
            self.wf(),
        ensures
            r is Err <==> !self.trips().contains_key(id),
            r matches Err(e) ==> e is NotFound,
            r matches Ok(x) ==> x@ == self.trips()[id],
            r matches Ok(x) ==> x.id == id,
            r matches Ok(x) ==> enc_trip(x@).len() <= MAX_RECORD_SIZE,
    {
        match self.trips.get(id) {
            Some(b) => Ok(decode_trip(&b, Ghost(self.trip_model@[id]))),
            None => Err(not_found_id("Trip", id)),
        }
    }

    /// Stores a new trip built from `payload` under the next id, and returns
    /// it. `StorageLimit`, with nothing changed, when the ids are used up or
    /// the record would not fit.
    pub fn add_trip(&mut self, payload: TripPayload) -> (r: Result<Trip, Error>)
        requires
            old(self).wf(),
        ensures
            final(self).wf(),
            final(self).trip_counter() >= old(self).trip_counter(),
            r is Err <==> (old(self).trip_counter() == u64::MAX || enc_trip(
                created_trip((old(self).trip_counter() + 1) as u64, payload),
            ).len() > MAX_RECORD_SIZE),
            r matches Err(e) ==> e is StorageLimit && final(self).same_state(&*old(self)),
            r matches Ok(x) ==> {
                &&& x.id == old(self).trip_counter() + 1
                &&& !old(self).trips().contains_key(x.id)
                &&& x@ == created_trip(x.id, payload)
                &&& final(self).trip_counter() == x.id
                &&& final(self).trips() == old(self).trips().insert(x.id, x@)
                &&& final(self).same_locations(&*old(self))
                &&& final(self).same_activities(&*old(self))
                &&& final(self).same_transportations(&*old(self))
            },
    {
        let c = self.trip_ids.get();
        if c == u64::MAX {
            return Err(storage_limit("trip ids exhausted"));
        }
        let id = c + 1;
        let x = Trip {
            id,
            name: payload.name,
            start_date: payload.start_date,
            end_date: payload.end_date,
            destinations: Vec::new(),
            activities: Vec::new(),
            budget: payload.budget,
            transportation: Vec::new(),
        };
        assert(location_views(x.destinations@) =~= Seq::<LocationView>::empty());
        assert(activity_views(x.activities@) =~= Seq::<ActivityView>::empty());
        assert(transportation_views(x.transportation@) =~= Seq::<TransportationView>::empty());
        let bytes = encode_trip(&x);
        if bytes.len() > MAX_RECORD_SIZE {
            return Err(storage_limit("trip record too large"));
        }
        self.trip_ids.set(id);
        self.trips.insert(id, bytes);
        self.trip_model = Ghost(self.trip_model@.insert(id, x@));
        Ok(x)
    }

    /// Overwrites the scalar fields of the trip stored under `id` with those
    /// of `payload`, keeping what is attached to it, and returns it.
    /// `NotFound` when there is none; `StorageLimit` when the record would
    /// not fit. Nothing changes on failure.
    pub fn update_trip(&mut self, id: u64, payload: TripPayload) -> (r: Result<Trip, Error>)
        requires
            old(self).wf(),
        ensures
            final(self).wf(),
            r is Err <==> (!old(self).trips().contains_key(id) || enc_trip(
                updated_trip(old(self).trips()[id], payload),
            ).len() > MAX_RECORD_SIZE),
            r matches Err(e) ==> final(self).same_state(&*old(self)) && (e is NotFound
                <==> !old(self).trips().contains_key(id)),
            r matches Ok(x) ==> {
                &&& x@ == updated_trip(old(self).trips()[id], payload)
                &&& x.id == id
                &&& final(self).trips() == old(self).trips().insert(id, x@)
                &&& final(self).trip_counter() == old(self).trip_counter()
                &&& final(self).same_locations(&*old(self))
                &&& final(self).same_activities(&*old(self))
                &&& final(self).same_transportations(&*old(self))
            },
    {
        let b = match self.trips.get(id) {
            Some(b) => b,
            None => {
                return Err(not_found_id("Trip", id));
            },
        };
        let mut x = decode_trip(&b, Ghost(self.trip_model@[id]));
        x.name = payload.name;
        x.start_date = payload.start_date;
        x.end_date = payload.end_date;
        x.budget = payload.budget;
        let bytes = encode_trip(&x);
        if bytes.len() > MAX_RECORD_SIZE {
            return Err(storage_limit("trip record too large"));
        }
        self.trips.insert(id, bytes);
        self.trip_model = Ghost(self.trip_model@.insert(id, x@));
        Ok(x)
    }

    /// Removes the trip stored under `id`; `NotFound`, with nothing changed,
    /// when there is none. Copies of it attached elsewhere stay.
    pub fn delete_trip(&mut self, id: u64) -> (r: Result<(), Error>)
        requires
            old(self).wf(),
        ensures
            final(self).wf(),
            r is Err <==> !old(self).trips().contains_key(id),
            r matches Err(e) ==> e is NotFound && final(self).same_state(&*old(self)),
            r is Ok ==> {
                &&& final(self).trips() == old(self).trips().remove(id)
                &&& final(self).trip_counter() == old(self).trip_counter()
                &&& final(self).same_locations(&*old(self))
                &&& final(self).same_activities(&*old(self))
                &&& final(self).same_transportations(&*old(self))
            },
    {
        match self.trips.remove(id) {
            Some(_) => {
                self.trip_model = Ghost(self.trip_model@.remove(id));
                Ok(())
            },
            None => {
                assert(table_contents(self.trips) =~= table_contents(old(self).trips));
                Err(not_found_id("Trip", id))
            },
        }
    }

    /// Every transportation, in ascending id order; `NotFound` when there is none.
    pub fn get_transportations(&self) -> (r: Result<Vec<Transportation>, Error>)
        requires
            self.wf(),
        ensures
            r is Err <==> self.transportations().is_empty(),
            r matches Err(e) ==> e is NotFound,
            r matches Ok(v) ==> listed_by_id(
                self.transportations(),
                transportation_views(v@),
                |x: TransportationView| transportation_key(x),
            ),
    {
        let entries = self.transportations.entries();
        let ghost m = self.transportation_model@;
        let mut out: Vec<Transportation> = Vec::new();
        let mut i: usize = 0;
        while i < entries.len()
            invariant
                self.wf(),
                m == self.transportation_model@,
                i <= entries.len(),
                lists_in_order(table_contents(self.transportations), entries@),
                out@.len() == i,
                forall|j: int| 0 <= j < i ==> #[trigger] out@[j]@ == m[entries@[j].0],
            decreases entries.len() - i,
        {
            let ghost k = entries@[i as int].0;
            let x = decode_transportation(&entries[i].1, Ghost(m[k]));
            out.push(x);
            i += 1;
        }
        if out.len() == 0 {
            proof {
                if !m.is_empty() {
                    let k = m.dom().choose();
                    assert(m.contains_key(k));
                }
            }
            return Err(not_found("No transportations found"));
        }
        assert(m.contains_key(entries@[0].0));
        proof {
            let s = transportation_views(out@);
            assert forall|j: int| 0 <= j < s.len() implies m.contains_key(#[trigger] transportation_key(s[j]))
                && m[transportation_key(s[j])] == s[j] by {
                assert(m.contains_key(entries@[j].0));
            }
            assert forall|k: u64| m.contains_key(k) implies exists|j: int|
                0 <= j < s.len() && #[trigger] transportation_key(s[j]) == k by {
                let j = choose|j: int| 0 <= j < entries@.len() && #[trigger] entries@[j].0 == k;
                assert(transportation_key(s[j]) == k);
            }
            assert forall|a: int, b: int| 0 <= a < b < s.len() implies transportation_key(s[a]) < transportation_key(
                s[b],
            ) by {
                assert(m.contains_key(entries@[a].0));
                assert(m.contains_key(entries@[b].0));
            }
        }
        Ok(out)
    }

    /// The transportation stored under `id`; `NotFound` when there is none.
    pub fn get_transportation_by_id(&self, id: u64) -> (r: Result<Transportation, Error>)
        requires
            self.wf(),
        ensures
            r is Err <==> !self.transportations().contains_key(id),
            r matches Err(e) ==> e is NotFound,
            r matches Ok(x) ==> x@ == self.transportations()[id],
            r matches Ok(x) ==> x.id == id,
            r matches Ok(x) ==> enc_transportation(x@).len() <= MAX_RECORD_SIZE,
    {
        match self.transportations.get(id) {
            Some(b) => Ok(decode_transportation(&b, Ghost(self.transportation_model@[id]))),
            None => Err(not_found_id("Transportation", id)),
        }
    }

    /// Stores a new transportation built from `payload` under the next id, and returns
    /// it. `StorageLimit`, with nothing changed, when the ids are used up or
    /// the record would not fit.
    pub fn add_transportation(&mut self, payload: TransportationPayload) -> (r: Result<Transportation, Error>)
        requires
            old(self).wf(),
        ensures
            final(self).wf(),
            final(self).transportation_counter() >= old(self).transportation_counter(),
            r is Err <==> (old(self).transportation_counter() == u64::MAX || enc_transportation(
                created_transportation((old(self).transportation_counter() + 1) as u64, payload),
            ).len() > MAX_RECORD_SIZE),
            r matches Err(e) ==> e is StorageLimit && final(self).same_state(&*old(self)),
            r matches Ok(x) ==> {
                &&& x.id == old(self).transportation_counter() + 1
                &&& !old(self).transportations().contains_key(x.id)
                &&& x@ == created_transportation(x.id, payload)
                &&& final(self).transportation_counter() == x.id
                &&& final(self).transportations() == old(self).transportations().insert(x.id, x@)
                &&& final(self).same_locations(&*old(self))
                &&& final(self).same_activities(&*old(self))
                &&& final(self).same_trips(&*old(self))
            },
    {
        let c = self.transportation_ids.get();
        if c == u64::MAX {
            return Err(storage_limit("transportation ids exhausted"));
        }
        let id = c + 1;
        let x = Transportation {
            id,
            type_: payload.type_,
            from: payload.from,
            to: payload.to,
            cost: payload.cost,
            date: payload.date,
        };

        let bytes = encode_transportation(&x);
        if bytes.len() > MAX_RECORD_SIZE {
            return Err(storage_limit("transportation record too large"));
        }
        self.transportation_ids.set(id);
        self.transportations.insert(id, bytes);
        self.transportation_model = Ghost(self.transportation_model@.insert(id, x@));
        Ok(x)
    }

    /// Overwrites the scalar fields of the transportation stored under `id` with those
    /// of `payload` and returns it.
    /// `NotFound` when there is none; `StorageLimit` when the record would
    /// not fit. Nothing changes on failure.
    pub fn update_transportation(&mut self, id: u64, payload: TransportationPayload) -> (r: Result<Transportation, Error>)
        requires
            old(self).wf(),
        ensures
            final(self).wf(),
            r is Err <==> (!old(self).transportations().contains_key(id) || enc_transportation(
                updated_transportation(old(self).transportations()[id], payload),
            ).len() > MAX_RECORD_SIZE),
            r matches Err(e) ==> final(self).same_state(&*old(self)) && (e is NotFound
                <==> !old(self).transportations().contains_key(id)),
            r matches Ok(x) ==> {
                &&& x@ == updated_transportation(old(self).transportations()[id], payload)
                &&& x.id == id
                &&& final(self).transportations() == old(self).transportations().insert(id, x@)
                &&& final(self).transportation_counter() == old(self).transportation_counter()
                &&& final(self).same_locations(&*old(self))
                &&& final(self).same_activities(&*old(self))
                &&& final(self).same_trips(&*old(self))
            },
    {
        let b = match self.transportations.get(id) {
            Some(b) => b,
            None => {
                return Err(not_found_id("Transportation", id));
            },
        };
        let mut x = decode_transportation(&b, Ghost(self.transportation_model@[id]));
        x.type_ = payload.type_;
        x.from = payload.from;
        x.to = payload.to;
        x.cost = payload.cost;
        x.date = payload.date;
        let bytes = encode_transportation(&x);
        if bytes.len() > MAX_RECORD_SIZE {
            return Err(storage_limit("transportation record too large"));
        }
        self.transportations.insert(id, bytes);
        self.transportation_model = Ghost(self.transportation_model@.insert(id, x@));
        Ok(x)
    }

    /// Removes the transportation stored under `id`; `NotFound`, with nothing changed,
    /// when there is none. Copies of it attached elsewhere stay.
    pub fn delete_transportation(&mut self, id: u64) -> (r: Result<(), Error>)
        requires
            old(self).wf(),
        ensures
            final(self).wf(),
            r is Err <==> !old(self).transportations().contains_key(id),
            r matches Err(e) ==> e is NotFound && final(self).same_state(&*old(self)),
            r is Ok ==> {
                &&& final(self).transportations() == old(self).transportations().remove(id)
                &&& final(self).transportation_counter() == old(self).transportation_counter()
                &&& final(self).same_locations(&*old(self))
                &&& final(self).same_activities(&*old(self))
                &&& final(self).same_trips(&*old(self))
            },
    {
        match self.transportations.remove(id) {
            Some(_) => {
                self.transportation_model = Ghost(self.transportation_model@.remove(id));
                Ok(())
            },
            None => {
                assert(table_contents(self.transportations) =~= table_contents(old(self).transportations));
                Err(not_found_id("Transportation", id))
            },
        }
    }

    /// Appends a copy of the activity `activity_id`, as it is now, to the activities of
    /// the location `location_id`. `NotFound` when either is absent; `StorageLimit`
    /// when the location would not fit. Nothing changes on failure.
    pub fn add_activity_to_location(&mut self, location_id: u64, activity_id: u64) -> (r: Result<(), Error>)
        requires
            old(self).wf(),
        ensures
            final(self).wf(),
            r is Err <==> (!old(self).locations().contains_key(location_id) || !old(self).activities().contains_key(
                activity_id,
            ) || enc_location(
                location_with_activity(old(self).locations()[location_id], old(self).activities()[activity_id]),
            ).len() > MAX_RECORD_SIZE),
            r matches Err(e) ==> final(self).same_state(&*old(self)) && (e is NotFound <==> (
            !old(self).locations().contains_key(location_id) || !old(self).activities().contains_key(activity_id))),
            !old(self).locations().contains_key(location_id) ==> (r matches Err(Error::NotFound { msg })
                && msg@ == id_message_text("Location"@, location_id)),
            old(self).locations().contains_key(location_id) && !old(self).activities().contains_key(activity_id) ==> (
            r matches Err(Error::NotFound { msg }) && msg@ == id_message_text("Activity"@, activity_id)),
            r is Ok ==> {
                &&& final(self).locations() == old(self).locations().insert(
                    location_id,
                    location_with_activity(old(self).locations()[location_id], old(self).activities()[activity_id]),
                )
                &&& final(self).location_counter() == old(self).location_counter()
                &&& final(self).same_activities(&*old(self))
                &&& final(self).same_trips(&*old(self))
                &&& final(self).same_transportations(&*old(self))
            },
    {
        let parent_bytes = match self.locations.get(location_id) {
            Some(b) => b,
            None => {
                return Err(not_found_id("Location", location_id));
            },
        };
        let child_bytes = match self.activities.get(activity_id) {
            Some(b) => b,
            None => {
                return Err(not_found_id("Activity", activity_id));
            },
        };
        let mut parent = decode_location(&parent_bytes, Ghost(self.location_model@[location_id]));
        let child = decode_activity(&child_bytes, Ghost(self.activity_model@[activity_id]));
        let ghost before = parent.activities@;
        parent.activities.push(child);
        assert(activity_views(parent.activities@) =~= activity_views(before).push(child@));
        let bytes = encode_location(&parent);
        if bytes.len() > MAX_RECORD_SIZE {
            return Err(storage_limit("location record too large"));
        }
        self.locations.insert(location_id, bytes);
        self.location_model = Ghost(self.location_model@.insert(location_id, parent@));
        Ok(())
    }

    /// Appends a copy of the location `location_id`, as it is now, to the destinations of
    /// the trip `trip_id`. `NotFound` when either is absent; `StorageLimit`
    /// when the trip would not fit. Nothing changes on failure.
    pub fn add_destination_to_trip(&mut self, trip_id: u64, location_id: u64) -> (r: Result<(), Error>)
        requires
            old(self).wf(),
        ensures
            final(self).wf(),
            r is Err <==> (!old(self).trips().contains_key(trip_id) || !old(self).locations().contains_key(
                location_id,
            ) || enc_trip(
                trip_with_destination(old(self).trips()[trip_id], old(self).locations()[location_id]),
            ).len() > MAX_RECORD_SIZE),
            r matches Err(e) ==> final(self).same_state(&*old(self)) && (e is NotFound <==> (
            !old(self).trips().contains_key(trip_id) || !old(self).locations().contains_key(location_id))),
            !old(self).trips().contains_key(trip_id) ==> (r matches Err(Error::NotFound { msg })
                && msg@ == id_message_text("Trip"@, trip_id)),
            old(self).trips().contains_key(trip_id) && !old(self).locations().contains_key(location_id) ==> (
            r matches Err(Error::NotFound { msg }) && msg@ == id_message_text("Location"@, location_id)),
            r is Ok ==> {
                &&& final(self).trips() == old(self).trips().insert(
                    trip_id,
                    trip_with_destination(old(self).trips()[trip_id], old(self).locations()[location_id]),
                )
                &&& final(self).trip_counter() == old(self).trip_counter()
                &&& final(self).same_locations(&*old(self))
                &&& final(self).same_activities(&*old(self))
                &&& final(self).same_transportations(&*old(self))
            },
    {
        let parent_bytes = match self.trips.get(trip_id) {
            Some(b) => b,
            None => {
                return Err(not_found_id("Trip", trip_id));
            },
        };
        let child_bytes = match self.locations.get(location_id) {
            Some(b) => b,
            None => {
                return Err(not_found_id("Location", location_id));
            },
        };
        let mut parent = decode_trip(&parent_bytes, Ghost(self.trip_model@[trip_id]));
        let child = decode_location(&child_bytes, Ghost(self.location_model@[location_id]));
        let ghost before = parent.destinations@;
        parent.destinations.push(child);
        assert(location_views(parent.destinations@) =~= location_views(before).push(child@));
        let bytes = encode_trip(&parent);
        if bytes.len() > MAX_RECORD_SIZE {
            return Err(storage_limit("trip record too large"));
        }
        self.trips.insert(trip_id, bytes);
        self.trip_model = Ghost(self.trip_model@.insert(trip_id, parent@));
        Ok(())
    }

    /// Appends a copy of the activity `activity_id`, as it is now, to the activities of
    /// the trip `trip_id`. `NotFound` when either is absent; `StorageLimit`
    /// when the trip would not fit. Nothing changes on failure.
    pub fn add_activity_to_trip(&mut self, trip_id: u64, activity_id: u64) -> (r: Result<(), Error>)
        requires
            old(self).wf(),
        ensures
            final(self).wf(),
            r is Err <==> (!old(self).trips().contains_key(trip_id) || !old(self).activities().contains_key(
                activity_id,
            ) || enc_trip(
                trip_with_activity(old(self).trips()[trip_id], old(self).activities()[activity_id]),
            ).len() > MAX_RECORD_SIZE),
            r matches Err(e) ==> final(self).same_state(&*old(self)) && (e is NotFound <==> (
            !old(self).trips().contains_key(trip_id) || !old(self).activities().contains_key(activity_id))),
            !old(self).trips().contains_key(trip_id) ==> (r matches Err(Error::NotFound { msg })
                && msg@ == id_message_text("Trip"@, trip_id)),
            old(self).trips().contains_key(trip_id) && !old(self).activities().contains_key(activity_id) ==> (
            r matches Err(Error::NotFound { msg }) && msg@ == id_message_text("Activity"@, activity_id)),
            r is Ok ==> {
                &&& final(self).trips() == old(self).trips().insert(
                    trip_id,
                    trip_with_activity(old(self).trips()[trip_id], old(self).activities()[activity_id]),
                )
                &&& final(self).trip_counter() == old(self).trip_counter()
                &&& final(self).same_locations(&*old(self))
                &&& final(self).same_activities(&*old(self))
                &&& final(self).same_transportations(&*old(self))
            },
    {
        let parent_bytes = match self.trips.get(trip_id) {
            Some(b) => b,
            None => {
                return Err(not_found_id("Trip", trip_id));
            },
        };
        let child_bytes = match self.activities.get(activity_id) {
            Some(b) => b,
            None => {
                return Err(not_found_id("Activity", activity_id));
            },
        };
        let mut parent = decode_trip(&parent_bytes, Ghost(self.trip_model@[trip_id]));
        let child = decode_activity(&child_bytes, Ghost(self.activity_model@[activity_id]));
        let ghost before = parent.activities@;
        parent.activities.push(child);
        assert(activity_views(parent.activities@) =~= activity_views(before).push(child@));
        let bytes = encode_trip(&parent);
        if bytes.len() > MAX_RECORD_SIZE {
            return Err(storage_limit("trip record too large"));
        }
        self.trips.insert(trip_id, bytes);
        self.trip_model = Ghost(self.trip_model@.insert(trip_id, parent@));
        Ok(())
    }

    /// Appends a copy of the transportation `transportation_id`, as it is now, to the transportation of
    /// the trip `trip_id`. `NotFound` when either is absent; `StorageLimit`
    /// when the trip would not fit. Nothing changes on failure.
    pub fn add_transportation_to_trip(&mut self, trip_id: u64, transportation_id: u64) -> (r: Result<(), Error>)
        requires
            old(self).wf(),
        ensures
            final(self).wf(),
            r is Err <==> (!old(self).trips().contains_key(trip_id) || !old(self).transportations().contains_key(
                transportation_id,
            ) || enc_trip(
                trip_with_transportation(old(self).trips()[trip_id], old(self).transportations()[transportation_id]),
            ).len() > MAX_RECORD_SIZE),
            r matches Err(e) ==> final(self).same_state(&*old(self)) && (e is NotFound <==> (
            !old(self).trips().contains_key(trip_id) || !old(self).transportations().contains_key(transportation_id))),
            !old(self).trips().contains_key(trip_id) ==> (r matches Err(Error::NotFound { msg })
                && msg@ == id_message_text("Trip"@, trip_id)),
            old(self).trips().contains_key(trip_id) && !old(self).transportations().contains_key(transportation_id) ==> (
            r matches Err(Error::NotFound { msg }) && msg@ == id_message_text("Transportation"@, transportation_id)),
            r is Ok ==> {
                &&& final(self).trips() == old(self).trips().insert(
                    trip_id,
                    trip_with_transportation(old(self).trips()[trip_id], old(self).transportations()[transportation_id]),
                )
                &&& final(self).trip_counter() == old(self).trip_counter()
                &&& final(self).same_locations(&*old(self))
                &&& final(self).same_activities(&*old(self))
                &&& final(self).same_transportations(&*old(self))
            },
    {
        let parent_bytes = match self.trips.get(trip_id) {
            Some(b) => b,
            None => {
                return Err(not_found_id("Trip", trip_id));
            },
        };
        let child_bytes = match self.transportations.get(transportation_id) {
            Some(b) => b,
            None => {
                return Err(not_found_id("Transportation", transportation_id));
            },
        };
        let mut parent = decode_trip(&parent_bytes, Ghost(self.trip_model@[trip_id]));
        let child = decode_transportation(&child_bytes, Ghost(self.transportation_model@[transportation_id]));
        let ghost before = parent.transportation@;
        parent.transportation.push(child);
        assert(transportation_views(parent.transportation@) =~= transportation_views(before).push(child@));
        let bytes = encode_trip(&parent);
        if bytes.len() > MAX_RECORD_SIZE {
            return Err(storage_limit("trip record too large"));
        }
        self.trips.insert(trip_id, bytes);
        self.trip_model = Ghost(self.trip_model@.insert(trip_id, parent@));
        Ok(())
    }

    /// The copies attached as activities to the location `location_id`, in the order
    /// attached; `NotFound` when there is no such location.
    pub fn get_activities_for_location(&self, location_id: u64) -> (r: Result<Vec<Activity>, Error>)
        requires
            self.wf(),
        ensures
            r is Err <==> !self.locations().contains_key(location_id),
            r matches Err(e) ==> e is NotFound,
            r matches Ok(v) ==> activity_views(v@) == self.locations()[location_id].activities,
    {
        match self.locations.get(location_id) {
            Some(b) => Ok(decode_location(&b, Ghost(self.location_model@[location_id])).activities),
            None => Err(not_found_id("Location", location_id)),
        }
    }

    /// The copies attached as destinations to the trip `trip_id`, in the order
    /// attached; `NotFound` when there is no such trip.
    pub fn get_destinations_for_trip(&self, trip_id: u64) -> (r: Result<Vec<Location>, Error>)
        requires
            self.wf(),
        ensures
            r is Err <==> !self.trips().contains_key(trip_id),
            r matches Err(e) ==> e is NotFound,
            r matches Ok(v) ==> location_views(v@) == self.trips()[trip_id].destinations,
    {
        match self.trips.get(trip_id) {
            Some(b) => Ok(decode_trip(&b, Ghost(self.trip_model@[trip_id])).destinations),
            None => Err(not_found_id("Trip", trip_id)),
        }
    }

    /// The copies attached as activities to the trip `trip_id`, in the order
    /// attached; `NotFound` when there is no such trip.
    pub fn get_activities_for_trip(&self, trip_id: u64) -> (r: Result<Vec<Activity>, Error>)
        requires
            self.wf(),
        ensures
            r is Err <==> !self.trips().contains_key(trip_id),
            r matches Err(e) ==> e is NotFound,
            r matches Ok(v) ==> activity_views(v@) == self.trips()[trip_id].activities,
    {
        match self.trips.get(trip_id) {
            Some(b) => Ok(decode_trip(&b, Ghost(self.trip_model@[trip_id])).activities),
            None => Err(not_found_id("Trip", trip_id)),
        }
    }

    /// The copies attached as transportation to the trip `trip_id`, in the order
    /// attached; `NotFound` when there is no such trip.
    pub fn get_transportation_for_trip(&self, trip_id: u64) -> (r: Result<Vec<Transportation>, Error>)
        requires
            self.wf(),
        ensures
            r is Err <==> !self.trips().contains_key(trip_id),
            r matches Err(e) ==> e is NotFound,
            r matches Ok(v) ==> transportation_views(v@) == self.trips()[trip_id].transportation,
    {
        match self.trips.get(trip_id) {
            Some(b) => Ok(decode_trip(&b, Ghost(self.trip_model@[trip_id])).transportation),
            None => Err(not_found_id("Trip", trip_id)),
        }
    }

    /// For the trip `trip_id`, the sum of the costs of its transportation legs, as
    /// attached; `NotFound` when there is no such trip.
    pub fn get_total_transportation_cost(&self, trip_id: u64) -> (r: Result<i128, Error>)
        requires
            self.wf(),
        ensures
            r is Err <==> !self.trips().contains_key(trip_id),
            r matches Err(e) ==> e is NotFound,
            r matches Ok(c) ==> c == transportation_cost_sum(self.trips()[trip_id].transportation),
    {
        let b = match self.trips.get(trip_id) {
            Some(b) => b,
            None => {
                return Err(not_found_id("Trip", trip_id));
            },
        };
        let trip = decode_trip(&b, Ghost(self.trip_model@[trip_id]));
        proof {
            lemma_trip_lists_within_encoding(trip@);
        }
        Ok(total_transportation_cost(&trip.transportation))
    }

    /// For the trip `trip_id`, the sum of the costs of its activities, as
    /// attached; `NotFound` when there is no such trip.
    pub fn get_total_activity_cost(&self, trip_id: u64) -> (r: Result<i128, Error>)
        requires
            self.wf(),
        ensures
            r is Err <==> !self.trips().contains_key(trip_id),
            r matches Err(e) ==> e is NotFound,
            r matches Ok(c) ==> c == activity_cost_sum(self.trips()[trip_id].activities),
    {
        let b = match self.trips.get(trip_id) {
            Some(b) => b,
            None => {
                return Err(not_found_id("Trip", trip_id));
            },
        };
        let trip = decode_trip(&b, Ghost(self.trip_model@[trip_id]));
        proof {
            lemma_trip_lists_within_encoding(trip@);
        }
        Ok(total_activity_cost(&trip.activities))
    }

    /// For the trip `trip_id`, the sum of the costs of its activities and of its transportation legs, as
    /// attached; `NotFound` when there is no such trip.
    pub fn get_total_cost(&self, trip_id: u64) -> (r: Result<i128, Error>)
        requires
            self.wf(),
        ensures
            r is Err <==> !self.trips().contains_key(trip_id),
            r matches Err(e) ==> e is NotFound,
            r matches Ok(c) ==> c == activity_cost_sum(self.trips()[trip_id].activities) + transportation_cost_sum(self.trips()[trip_id].transportation),
    {
        let b = match self.trips.get(trip_id) {
            Some(b) => b,
            None => {
                return Err(not_found_id("Trip", trip_id));
            },
        };
        let trip = decode_trip(&b, Ghost(self.trip_model@[trip_id]));
        proof {
            lemma_trip_lists_within_encoding(trip@);
        }
        let a = total_activity_cost(&trip.activities);
        let t = total_transportation_cost(&trip.transportation);
        Ok(a + t)
    }

    /// For the trip `trip_id`, the sum of the durations of its activities, as
    /// attached; `NotFound` when there is no such trip.
    pub fn get_total_duration(&self, trip_id: u64) -> (r: Result<u64, Error>)
        requires
            self.wf(),
        ensures
            r is Err <==> !self.trips().contains_key(trip_id),
            r matches Err(e) ==> e is NotFound,
            r matches Ok(c) ==> c == duration_sum(self.trips()[trip_id].activities),
    {
        let b = match self.trips.get(trip_id) {
            Some(b) => b,
            None => {
                return Err(not_found_id("Trip", trip_id));
            },
        };
        let trip = decode_trip(&b, Ghost(self.trip_model@[trip_id]));
        proof {
            lemma_trip_lists_within_encoding(trip@);
        }
        Ok(total_activity_duration(&trip.activities))
    }
}

/// A created location gets an id that no earlier create of a location handed out:
/// each id handed out is at most the counter at that time, no operation
/// lowers the counter, and a create returns one more than the counter and
/// leaves the counter there. Nor is that id stored.
pub proof fn law_location_id_fresh(
    earlier: Store,
    before: Store,
    after: Store,
    earlier_id: u64,
    x: LocationView,
)
    requires
        before.wf(),
        earlier_id <= earlier.location_counter(),
        earlier.location_counter() <= before.location_counter(),
        x.id == before.location_counter() + 1,
        after.location_counter() == x.id,
    ensures
        x.id != earlier_id,
        earlier_id < after.location_counter(),
        !before.locations().contains_key(x.id),
{
}

/// Updating a location keeps its id and what is attached to it, and
/// takes every scalar field from the payload.
pub proof fn law_update_location_keeps_attached(before: Store, after: Store, id: u64, p: LocationPayload)
    requires
        before.locations().contains_key(id),
        after.locations() == before.locations().insert(id, updated_location(before.locations()[id], p)),
    ensures
        after.locations()[id].id == before.locations()[id].id,
        after.locations()[id].activities == before.locations()[id].activities,
        after.locations()[id].name == p.name@,
        after.locations()[id].country == p.country@,
        after.locations()[id].site == p.site@,
        after.locations()[id].description == p.description@,
{
}

/// A created activity gets an id that no earlier create of an activity handed out:
/// each id handed out is at most the counter at that time, no operation
/// lowers the counter, and a create returns one more than the counter and
/// leaves the counter there. Nor is that id stored.
pub proof fn law_activity_id_fresh(
    earlier: Store,
    before: Store,
    after: Store,
    earlier_id: u64,
    x: ActivityView,
)
    requires
        before.wf(),
        earlier_id <= earlier.activity_counter(),
        earlier.activity_counter() <= before.activity_counter(),
        x.id == before.activity_counter() + 1,
        after.activity_counter() == x.id,
    ensures
        x.id != earlier_id,
        earlier_id < after.activity_counter(),
        !before.activities().contains_key(x.id),
{
}

/// Updating an activity keeps its id, and
/// takes every scalar field from the payload.
pub proof fn law_update_activity_keeps_attached(before: Store, after: Store, id: u64, p: ActivityPayload)
    requires
        before.activities().contains_key(id),
        after.activities() == before.activities().insert(id, updated_activity(before.activities()[id], p)),
    ensures
        after.activities()[id].id == before.activities()[id].id,
        after.activities()[id].name == p.name@,
        after.activities()[id].duration == p.duration,
        after.activities()[id].cost == p.cost,
        after.activities()[id].description == p.description@,
        after.activities()[id].location == p.location,
{
}

/// A created trip gets an id that no earlier create of a trip handed out:
/// each id handed out is at most the counter at that time, no operation
/// lowers the counter, and a create returns one more than the counter and
/// leaves the counter there. Nor is that id stored.
pub proof fn law_trip_id_fresh(
    earlier: Store,
    before: Store,
    after: Store,
    earlier_id: u64,
    x: TripView,
)
    requires
        before.wf(),
        earlier_id <= earlier.trip_counter(),
        earlier.trip_counter() <= before.trip_counter(),
        x.id == before.trip_counter() + 1,
        after.trip_counter() == x.id,
    ensures
        x.id != earlier_id,
        earlier_id < after.trip_counter(),
        !before.trips().contains_key(x.id),
{
}

/// Updating a trip keeps its id and what is attached to it, and
/// takes every scalar field from the payload.
pub proof fn law_update_trip_keeps_attached(before: Store, after: Store, id: u64, p: TripPayload)
    requires
        before.trips().contains_key(id),
        after.trips() == before.trips().insert(id, updated_trip(before.trips()[id], p)),
    ensures
        after.trips()[id].id == before.trips()[id].id,
        after.trips()[id].destinations == before.trips()[id].destinations,
        after.trips()[id].activities == before.trips()[id].activities,
        after.trips()[id].transportation == before.trips()[id].transportation,
        after.trips()[id].name == p.name@,
        after.trips()[id].start_date == p.start_date@,
        after.trips()[id].end_date == p.end_date@,
        after.trips()[id].budget == p.budget,
{
}

/// A created transportation gets an id that no earlier create of a transportation handed out:
/// each id handed out is at most the counter at that time, no operation
/// lowers the counter, and a create returns one more than the counter and
/// leaves the counter there. Nor is that id stored.
pub proof fn law_transportation_id_fresh(
    earlier: Store,
    before: Store,
    after: Store,
    earlier_id: u64,
    x: TransportationView,
)
    requires
        before.wf(),
        earlier_id <= earlier.transportation_counter(),
        earlier.transportation_counter() <= before.transportation_counter(),
        x.id == before.transportation_counter() + 1,
        after.transportation_counter() == x.id,
    ensures
        x.id != earlier_id,
        earlier_id < after.transportation_counter(),
        !before.transportations().contains_key(x.id),
{
}

/// Updating a transportation keeps its id, and
/// takes every scalar field from the payload.
pub proof fn law_update_transportation_keeps_attached(before: Store, after: Store, id: u64, p: TransportationPayload)
    requires
        before.transportations().contains_key(id),
        after.transportations() == before.transportations().insert(id, updated_transportation(before.transportations()[id], p)),
    ensures
        after.transportations()[id].id == before.transportations()[id].id,
        after.transportations()[id].type_ == p.type_@,
        after.transportations()[id].from == p.from,
        after.transportations()[id].to == p.to,
        after.transportations()[id].cost == p.cost,
        after.transportations()[id].date == p.date@,
{
}

/// Reading an entity right after creating it gives the created entity.
pub proof fn law_read_after_create<V>(before: Map<u64, V>, after: Map<u64, V>, id: u64, x: V)
    requires
        after == before.insert(id, x),
    ensures
        after.contains_key(id),
        after[id] == x,
{
}

/// A created location has no activities attached, and a created trip no
/// destinations, activities or legs.
pub proof fn law_created_has_nothing_attached(id: u64, lp: LocationPayload, tp: TripPayload)
    ensures
        created_location(id, lp).activities.len() == 0,
        created_trip(id, tp).destinations.len() == 0,
        created_trip(id, tp).activities.len() == 0,
        created_trip(id, tp).transportation.len() == 0,
{
}

/// After deleting an id, that id is absent, so reading it fails with
/// `NotFound`.
pub proof fn law_read_after_delete<V>(before: Map<u64, V>, after: Map<u64, V>, id: u64)
    requires
        after == before.remove(id),
    ensures
        !after.contains_key(id),
{
}

/// Listing an empty table fails with `NotFound`; after one create on an
/// empty table, the listing is exactly the created entity.
pub proof fn law_list_after_one_create<V>(
    before: Map<u64, V>,
    after: Map<u64, V>,
    id: u64,
    x: V,
    s: Seq<V>,
    key: spec_fn(V) -> u64,
)
    requires
        before.is_empty(),
        key(x) == id,
        after == before.insert(id, x),
        listed_by_id(after, s, key),
    ensures
        !after.is_empty(),
        s == seq![x],
{
    assert(after.contains_key(id));
    let i = choose|i: int| 0 <= i < s.len() && #[trigger] key(s[i]) == id;
    assert forall|j: int| 0 <= j < s.len() implies #[trigger] key(s[j]) == id by {
        assert(after.contains_key(key(s[j])));
        assert(before.insert(id, x).dom() =~= set![id]);
    }
    if s.len() > 1 {
        assert(key(s[0]) < key(s[1]));
    }
    assert(s.len() == 1);
    assert(s[0] == x);
    assert(s =~= seq![x]);
}

/// A copy attached by `add_activity_to_location` is a snapshot: editing or deleting the
/// original activity afterwards leaves the copy inside the location as it was.
pub proof fn law_add_activity_to_location_snapshot(before: Store, mid: Store, after: Store, location_id: u64, activity_id: u64)
    requires
        before.locations().contains_key(location_id),
        before.activities().contains_key(activity_id),
        mid.locations() == before.locations().insert(
            location_id,
            location_with_activity(before.locations()[location_id], before.activities()[activity_id]),
        ),
        after.same_locations(&mid),
    ensures
        after.locations()[location_id].activities.last() == before.activities()[activity_id],
        after.locations()[location_id].activities.drop_last() == before.locations()[location_id].activities,
{
    assert(after.locations()[location_id].activities.drop_last() =~= before.locations()[location_id].activities);
}

/// A copy attached by `add_destination_to_trip` is a snapshot: editing or deleting the
/// original location afterwards leaves the copy inside the trip as it was.
pub proof fn law_add_destination_to_trip_snapshot(before: Store, mid: Store, after: Store, trip_id: u64, location_id: u64)
    requires
        before.trips().contains_key(trip_id),
        before.locations().contains_key(location_id),
        mid.trips() == before.trips().insert(
            trip_id,
            trip_with_destination(before.trips()[trip_id], before.locations()[location_id]),
        ),
        after.same_trips(&mid),
    ensures
        after.trips()[trip_id].destinations.last() == before.locations()[location_id],
        after.trips()[trip_id].destinations.drop_last() == before.trips()[trip_id].destinations,
{
    assert(after.trips()[trip_id].destinations.drop_last() =~= before.trips()[trip_id].destinations);
}

/// A copy attached by `add_activity_to_trip` is a snapshot: editing or deleting the
/// original activity afterwards leaves the copy inside the trip as it was.
pub proof fn law_add_activity_to_trip_snapshot(before: Store, mid: Store, after: Store, trip_id: u64, activity_id: u64)
    requires
        before.trips().contains_key(trip_id),
        before.activities().contains_key(activity_id),
        mid.trips() == before.trips().insert(
            trip_id,
            trip_with_activity(before.trips()[trip_id], before.activities()[activity_id]),
        ),
        after.same_trips(&mid),
    ensures
        after.trips()[trip_id].activities.last() == before.activities()[activity_id],
        after.trips()[trip_id].activities.drop_last() == before.trips()[trip_id].activities,
{
    assert(after.trips()[trip_id].activities.drop_last() =~= before.trips()[trip_id].activities);
}

/// A copy attached by `add_transportation_to_trip` is a snapshot: editing or deleting the
/// original transportation afterwards leaves the copy inside the trip as it was.
pub proof fn law_add_transportation_to_trip_snapshot(before: Store, mid: Store, after: Store, trip_id: u64, transportation_id: u64)
    requires
        before.trips().contains_key(trip_id),
        before.transportations().contains_key(transportation_id),
        mid.trips() == before.trips().insert(
            trip_id,
            trip_with_transportation(before.trips()[trip_id], before.transportations()[transportation_id]),
        ),
        after.same_trips(&mid),
    ensures
        after.trips()[trip_id].transportation.last() == before.transportations()[transportation_id],
        after.trips()[trip_id].transportation.drop_last() == before.trips()[trip_id].transportation,
{
    assert(after.trips()[trip_id].transportation.drop_last() =~= before.trips()[trip_id].transportation);
}

} // verus!
