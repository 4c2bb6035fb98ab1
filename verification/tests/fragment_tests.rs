use tramtrack::route_fragment::{
    FragmentStatusRequest, PairOutcome, RouteFragment, UpdateMeta,
};

// Times of day in seconds since midnight.
const T_08_00_00: u32 = 28800;
const T_08_03_20: u32 = 29000;
const T_08_04_10: u32 = 29050;
const T_08_05_00: u32 = 29100;
const T_08_09_30: u32 = 29370;
const T_08_10_00: u32 = 29400;

#[test]
fn entry_then_leave_records_duration() {
    let mut f = RouteFragment::new("F".to_string());
    assert_eq!(f.handle_entry("T1".to_string(), T_08_00_00), PairOutcome::Stored);
    assert_eq!(f.handle_leave("T1".to_string(), T_08_03_20), PairOutcome::Recorded(200));
    let s = f.status(T_08_05_00);
    assert_eq!(s.time, Some(200));
    assert!(s.active_trips.is_empty());
    assert_eq!(s.update_secs, Some(100));
}

#[test]
fn leave_then_entry_records_duration() {
    let mut f = RouteFragment::new("F".to_string());
    assert_eq!(f.handle_leave("T2".to_string(), T_08_05_00), PairOutcome::Stored);
    assert_eq!(f.handle_entry("T2".to_string(), T_08_04_10), PairOutcome::Recorded(50));
    let s = f.status(T_08_05_00);
    assert_eq!(s.time, Some(50));
    assert!(s.active_trips.is_empty());
}

#[test]
fn leave_before_entry_in_time_is_discarded() {
    let mut f = RouteFragment::new("F".to_string());
    assert_eq!(f.handle_entry("T3".to_string(), T_08_10_00), PairOutcome::Stored);
    assert_eq!(f.handle_leave("T3".to_string(), T_08_09_30), PairOutcome::Discarded);
    let s = f.status(T_08_10_00);
    assert_eq!(s.time, None);
    assert!(s.active_trips.is_empty());
    assert_eq!(s.update_secs, None);
}

#[test]
fn zero_duration_is_discarded() {
    let mut f = RouteFragment::new("F".to_string());
    f.handle_entry("T".to_string(), T_08_00_00);
    assert_eq!(f.handle_leave("T".to_string(), T_08_00_00), PairOutcome::Discarded);
    assert_eq!(f.status(T_08_00_00).time, None);
}

#[test]
fn single_entry_reports_trip_in_flight() {
    let mut f = RouteFragment::new("F".to_string());
    f.handle_entry("T9".to_string(), T_08_00_00);
    let s = f.status(T_08_00_00);
    assert_eq!(s.active_trips, vec!["T9".to_string()]);
    assert_eq!(s.time, None);
    assert_eq!(s.update_secs, None);
}

#[test]
fn single_leave_reports_trip_in_flight() {
    let mut f = RouteFragment::new("F".to_string());
    f.handle_leave("T8".to_string(), T_08_03_20);
    let s = f.status(T_08_05_00);
    assert_eq!(s.active_trips, vec!["T8".to_string()]);
    assert_eq!(s.time, None);
    assert_eq!(s.update_secs, None);
}

#[test]
fn both_awaiting_sides_are_in_flight() {
    let mut f = RouteFragment::new("F".to_string());
    f.handle_entry("A".to_string(), T_08_00_00);
    f.handle_leave("B".to_string(), T_08_03_20);
    let mut trips = f.status(T_08_05_00).active_trips;
    trips.sort();
    assert_eq!(trips, vec!["A".to_string(), "B".to_string()]);
}

#[test]
fn stale_entry_is_overwritten() {
    let mut f = RouteFragment::new("F".to_string());
    assert_eq!(f.handle_entry("T".to_string(), 100), PairOutcome::Stored);
    assert_eq!(f.handle_entry("T".to_string(), 200), PairOutcome::Stored);
    assert_eq!(f.handle_leave("T".to_string(), 250), PairOutcome::Recorded(50));
}

#[test]
fn stale_leave_is_overwritten() {
    let mut f = RouteFragment::new("F".to_string());
    assert_eq!(f.handle_leave("T".to_string(), 500), PairOutcome::Stored);
    assert_eq!(f.handle_leave("T".to_string(), 400), PairOutcome::Stored);
    assert_eq!(f.handle_entry("T".to_string(), 300), PairOutcome::Recorded(100));
}

#[test]
fn pairing_on_entry_updates_last_pairing_to_leave_time() {
    let mut f = RouteFragment::new("F".to_string());
    f.handle_leave("T".to_string(), 300);
    assert_eq!(f.handle_entry("T".to_string(), 100), PairOutcome::Recorded(200));
    let s = f.status(350);
    assert_eq!(s.update_secs, Some(50));
    assert_eq!(s.time, Some(200));
}

#[test]
fn fresh_fragment_status_is_empty() {
    let f = RouteFragment::new("12529".to_string());
    let s = f.status(0);
    assert_eq!(s.stop_id, "12529");
    assert_eq!(s.stop_name, "?");
    assert_eq!(s.time, None);
    assert_eq!(s.update_secs, None);
    assert!(s.active_trips.is_empty());
}

#[test]
fn update_meta_changes_display_names_only() {
    let mut f = RouteFragment::new("F".to_string());
    f.handle_entry("T".to_string(), 100);
    f.handle_meta(RouteFragment::update_start("Alpha"));
    f.handle_meta(RouteFragment::update_stop("Beta"));
    let s = f.status(200);
    assert_eq!(s.stop_name, "Alpha");
    assert_eq!(s.active_trips, vec!["T".to_string()]);
}

#[test]
fn update_meta_constructors_build_the_right_variants() {
    assert!(matches!(RouteFragment::update_start("A"), UpdateMeta::UpdateStartName(n) if n == "A"));
    assert!(matches!(RouteFragment::update_stop("B"), UpdateMeta::UpdateStopName(n) if n == "B"));
}

#[test]
fn handle_status_matches_status() {
    let mut f = RouteFragment::new("F".to_string());
    f.handle_entry("T".to_string(), 100);
    let s = f.handle_status(FragmentStatusRequest, 150);
    assert_eq!(s.stop_id, "F");
    assert_eq!(s.active_trips, vec!["T".to_string()]);
}

#[test]
fn two_trips_are_paired_independently() {
    let mut f = RouteFragment::new("F".to_string());
    f.handle_entry("A".to_string(), 100);
    f.handle_entry("B".to_string(), 150);
    assert_eq!(f.handle_leave("B".to_string(), 250), PairOutcome::Recorded(100));
    let s = f.status(300);
    assert_eq!(s.active_trips, vec!["A".to_string()]);
    assert_eq!(s.time, Some(100));
}
