use trip_planner::codec::{encode_activity, encode_location, parse_activity, parse_location};
use trip_planner::model::{
    Activity, ActivityPayload, Error, Location, LocationPayload, TransportationPayload,
    TripPayload, MAX_RECORD_SIZE,
};
use trip_planner::store::Store;
use trip_planner::totals::{total_activity_cost, total_activity_duration};

fn location(name: &str) -> LocationPayload {
    LocationPayload {
        name: name.to_string(),
        country: "France".to_string(),
        site: "Old town".to_string(),
        description: "A city".to_string(),
    }
}

fn activity(name: &str, cost: i64, duration: u32, location: u64) -> ActivityPayload {
    ActivityPayload {
        name: name.to_string(),
        duration,
        cost,
        description: "Guided".to_string(),
        location,
    }
}

fn trip(name: &str, budget: i64) -> TripPayload {
    TripPayload {
        name: name.to_string(),
        start_date: "2024-05-01".to_string(),
        end_date: "2024-05-10".to_string(),
        budget,
    }
}

fn leg(cost: i64) -> TransportationPayload {
    TransportationPayload {
        type_: "train".to_string(),
        from: 1,
        to: 2,
        cost,
        date: "2024-05-02".to_string(),
    }
}

#[test]
fn euro_trip_totals() {
    let mut s = Store::new();
    let paris = s.add_location(location("Paris")).unwrap();
    assert_eq!(paris.id, 1);
    let tour = s.add_activity(activity("Tour", 5000, 120, 1)).unwrap();
    assert_eq!(tour.id, 1);
    s.add_activity_to_location(1, 1).unwrap();
    let paris = s.get_location_by_id(1).unwrap();
    assert_eq!(paris.activities, vec![tour.clone()]);
    assert_eq!(paris.activities[0].id, 1);
    let t = s.add_trip(trip("EuroTrip", 100000)).unwrap();
    assert_eq!(t.id, 1);
    let l = s.add_transportation(leg(3000)).unwrap();
    assert_eq!(l.id, 1);
    s.add_activity_to_trip(1, 1).unwrap();
    s.add_transportation_to_trip(1, 1).unwrap();
    assert_eq!(s.get_total_cost(1), Ok(8000));
    assert_eq!(s.get_total_activity_cost(1), Ok(5000));
    assert_eq!(s.get_total_transportation_cost(1), Ok(3000));
    assert_eq!(s.get_total_duration(1), Ok(120));
}

#[test]
fn ids_increase_and_are_never_reused() {
    let mut s = Store::new();
    let a = s.add_activity(activity("A", 1, 1, 1)).unwrap();
    let b = s.add_activity(activity("B", 1, 1, 1)).unwrap();
    assert_eq!((a.id, b.id), (1, 2));
    s.delete_activity(2).unwrap();
    let c = s.add_activity(activity("C", 1, 1, 1)).unwrap();
    assert_eq!(c.id, 3);
    let t = s.add_trip(trip("T", 0)).unwrap();
    assert_eq!(t.id, 1);
    let x = s.add_transportation(leg(0)).unwrap();
    assert_eq!(x.id, 1);
}

#[test]
fn read_after_create_gives_created_entity() {
    let mut s = Store::new();
    let created = s.add_location(location("Zürich ☀")).unwrap();
    assert!(created.activities.is_empty());
    assert_eq!(s.get_location_by_id(created.id), Ok(created.clone()));
    assert_eq!(s.get_location_by_id(created.id).unwrap().name, "Zürich ☀");
    let t = s.add_trip(trip("Alps", -250)).unwrap();
    let back = s.get_trip_by_id(t.id).unwrap();
    assert_eq!(back, t);
    assert!(back.destinations.is_empty() && back.activities.is_empty());
    assert!(back.transportation.is_empty());
    assert_eq!(back.budget, -250);
}

#[test]
fn update_keeps_attached_copies() {
    let mut s = Store::new();
    s.add_location(location("Paris")).unwrap();
    s.add_activity(activity("Tour", 5000, 120, 1)).unwrap();
    s.add_activity_to_location(1, 1).unwrap();
    let updated = s.update_location(1, location("Lyon")).unwrap();
    assert_eq!(updated.name, "Lyon");
    assert_eq!(updated.id, 1);
    assert_eq!(updated.activities.len(), 1);
    assert_eq!(updated.activities[0].name, "Tour");
    assert_eq!(s.get_location_by_id(1), Ok(updated));
    s.add_trip(trip("T", 10)).unwrap();
    s.add_destination_to_trip(1, 1).unwrap();
    let t = s.update_trip(1, trip("U", 20)).unwrap();
    assert_eq!((t.name.as_str(), t.budget, t.destinations.len()), ("U", 20, 1));
}

#[test]
fn update_of_absent_id_is_not_found() {
    let mut s = Store::new();
    assert!(matches!(s.update_activity(4, activity("A", 1, 1, 1)), Err(Error::NotFound { .. })));
    assert!(matches!(s.update_transportation(4, leg(1)), Err(Error::NotFound { .. })));
}

#[test]
fn delete_then_read_is_not_found() {
    let mut s = Store::new();
    s.add_transportation(leg(10)).unwrap();
    assert_eq!(s.delete_transportation(1), Ok(()));
    assert!(matches!(s.get_transportation_by_id(1), Err(Error::NotFound { .. })));
    assert!(matches!(s.delete_transportation(1), Err(Error::NotFound { .. })));
}

#[test]
fn attached_copy_is_a_snapshot() {
    let mut s = Store::new();
    s.add_trip(trip("T", 0)).unwrap();
    s.add_activity(activity("Tour", 5000, 120, 1)).unwrap();
    s.add_activity_to_trip(1, 1).unwrap();
    s.update_activity(1, activity("Changed", 9900, 5, 2)).unwrap();
    let copies = s.get_activities_for_trip(1).unwrap();
    assert_eq!(copies[0].name, "Tour");
    assert_eq!(s.get_total_cost(1), Ok(5000));
    s.delete_activity(1).unwrap();
    assert_eq!(s.get_total_duration(1), Ok(120));
}

#[test]
fn attaching_twice_gives_two_copies() {
    let mut s = Store::new();
    s.add_trip(trip("T", 0)).unwrap();
    s.add_transportation(leg(250)).unwrap();
    s.add_transportation_to_trip(1, 1).unwrap();
    s.add_transportation_to_trip(1, 1).unwrap();
    assert_eq!(s.get_transportation_for_trip(1).unwrap().len(), 2);
    assert_eq!(s.get_total_transportation_cost(1), Ok(500));
}

#[test]
fn attach_with_absent_ids_is_not_found() {
    let mut s = Store::new();
    assert!(matches!(s.add_activity_to_location(1, 1), Err(Error::NotFound { .. })));
    s.add_location(location("Paris")).unwrap();
    assert!(matches!(s.add_activity_to_location(1, 7), Err(Error::NotFound { .. })));
    assert!(matches!(s.add_destination_to_trip(3, 1), Err(Error::NotFound { .. })));
    assert!(matches!(s.get_activities_for_location(2), Err(Error::NotFound { .. })));
    assert!(matches!(s.get_destinations_for_trip(2), Err(Error::NotFound { .. })));
    assert!(matches!(s.get_total_cost(2), Err(Error::NotFound { .. })));
    assert!(s.get_activities_for_location(1).unwrap().is_empty());
}

#[test]
fn listing_empty_table_is_not_found() {
    let mut s = Store::new();
    assert!(matches!(s.get_locations(), Err(Error::NotFound { .. })));
    assert!(matches!(s.get_activities(), Err(Error::NotFound { .. })));
    assert!(matches!(s.get_trips(), Err(Error::NotFound { .. })));
    assert!(matches!(s.get_transportations(), Err(Error::NotFound { .. })));
    let created = s.add_location(location("Paris")).unwrap();
    assert_eq!(s.get_locations(), Ok(vec![created]));
}

#[test]
fn listing_is_in_id_order() {
    let mut s = Store::new();
    for name in ["a", "b", "c"] {
        s.add_trip(trip(name, 0)).unwrap();
    }
    s.delete_trip(2).unwrap();
    let ids: Vec<u64> = s.get_trips().unwrap().iter().map(|t| t.id).collect();
    assert_eq!(ids, vec![1, 3]);
}

#[test]
fn oversized_record_is_refused() {
    let mut s = Store::new();
    let big = "x".repeat(MAX_RECORD_SIZE);
    let r = s.add_location(location(&big));
    assert!(matches!(r, Err(Error::StorageLimit { .. })));
    assert!(matches!(s.get_locations(), Err(Error::NotFound { .. })));
    let ok = s.add_location(location("Paris")).unwrap();
    assert_eq!(ok.id, 1);
    let mut grown = location("Paris");
    grown.description = big;
    assert!(matches!(s.update_location(1, grown), Err(Error::StorageLimit { .. })));
    assert_eq!(s.get_location_by_id(1).unwrap().name, "Paris");
}

#[test]
fn attaching_until_full_is_refused() {
    let mut s = Store::new();
    s.add_location(location("Paris")).unwrap();
    s.add_activity(activity("Tour", 1, 1, 1)).unwrap();
    let mut attached = 0;
    while s.add_activity_to_location(1, 1).is_ok() {
        attached += 1;
    }
    assert!(matches!(s.add_activity_to_location(1, 1), Err(Error::StorageLimit { .. })));
    let loc = s.get_location_by_id(1).unwrap();
    assert_eq!(loc.activities.len(), attached);
    assert!(encode_location(&loc).len() <= MAX_RECORD_SIZE);
}

#[test]
fn encoded_activity_has_exact_length() {
    let a = Activity {
        id: 7,
        name: "é".to_string(),
        duration: 3,
        cost: -4,
        description: "ab".to_string(),
        location: 9,
    };
    let b = encode_activity(&a);
    assert_eq!(b.len(), 8 + (8 + 2) + 4 + 8 + (8 + 2) + 8);
    assert_eq!(&b[0..8], &7u64.to_le_bytes());
    assert_eq!(&b[16..18], "é".as_bytes());
    let l = Location {
        id: 1,
        name: String::new(),
        country: String::new(),
        site: String::new(),
        description: String::new(),
        activities: vec![a],
    };
    assert_eq!(encode_location(&l).len(), 8 + 4 * 8 + 8 + b.len());
}

#[test]
fn folds_sum_costs_and_durations() {
    let mk = |cost: i64, duration: u32| Activity {
        id: 1,
        name: String::new(),
        duration,
        cost,
        description: String::new(),
        location: 1,
    };
    let v = vec![mk(i64::MAX, u32::MAX), mk(i64::MAX, u32::MAX), mk(-5, 1)];
    assert_eq!(total_activity_cost(&v), 2 * (i64::MAX as i128) - 5);
    assert_eq!(total_activity_duration(&v), 2 * (u32::MAX as u64) + 1);
    assert_eq!(total_activity_cost(&Vec::new()), 0);
}

#[test]
fn restore_on_fresh_memory_is_empty() {
    let mut s = Store::restore().unwrap();
    assert!(matches!(s.get_trips(), Err(Error::NotFound { .. })));
    assert_eq!(s.add_trip(trip("T", 1)).unwrap().id, 1);
}

#[test]
fn parse_reads_back_encoded_records() {
    let a = Activity {
        id: 2,
        name: "Museum".to_string(),
        duration: 90,
        cost: 1250,
        description: "Louvre".to_string(),
        location: 1,
    };
    let l = Location {
        id: 1,
        name: "Paris".to_string(),
        country: "France".to_string(),
        site: "Centre".to_string(),
        description: String::new(),
        activities: vec![a.clone(), a.clone()],
    };
    assert_eq!(parse_activity(&encode_activity(&a)), Some(a.clone()));
    let bytes = encode_location(&l);
    assert_eq!(parse_location(&bytes), Some(l.clone()));
    assert_eq!(parse_location(&bytes[..bytes.len() - 1].to_vec()), None);
    let mut longer = bytes.clone();
    longer.push(0);
    assert_eq!(parse_location(&longer), None);
}

#[test]
fn parse_refuses_invalid_utf8() {
    let a = Activity {
        id: 2,
        name: "ab".to_string(),
        duration: 1,
        cost: 1,
        description: String::new(),
        location: 1,
    };
    let mut bytes = encode_activity(&a);
    bytes[16] = 0xff;
    assert_eq!(parse_activity(&bytes), None);
}

#[test]
fn attach_reports_the_missing_record() {
    let mut s = Store::new();
    let missing_parent = s.add_activity_to_trip(4, 9);
    assert_eq!(
        missing_parent,
        Err(Error::NotFound { msg: "Trip with the id=4 not found".to_string() })
    );
    s.add_trip(trip("T", 0)).unwrap();
    let missing_child = s.add_activity_to_trip(1, 9);
    assert_eq!(
        missing_child,
        Err(Error::NotFound { msg: "Activity with the id=9 not found".to_string() })
    );
}

#[test]
fn not_found_message_spells_the_id_in_decimal() {
    let s = Store::new();
    assert_eq!(
        s.get_location_by_id(18446744073709551615),
        Err(Error::NotFound { msg: "Location with the id=18446744073709551615 not found".to_string() })
    );
    assert_eq!(
        s.get_trip_by_id(0),
        Err(Error::NotFound { msg: "Trip with the id=0 not found".to_string() })
    );
}
