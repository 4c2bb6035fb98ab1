use tramtrack::route_fragment::PairOutcome;
use tramtrack::route_fragment_registry::{GetRouteFragment, RouteFragmentRegistry};
use tramtrack::trip_registry::{RegisterTrip, TripRegistry};

#[test]
fn same_id_returns_same_handle() {
    let mut r = RouteFragmentRegistry::new();
    let h1 = r.get_or_create("S1".to_string());
    let h2 = r.get_or_create("S1".to_string());
    assert_eq!(h1, h2);
}

#[test]
fn distinct_ids_get_independent_empty_fragments() {
    let mut r = RouteFragmentRegistry::new();
    let h1 = r.get_or_create("S1".to_string());
    let h2 = r.get_or_create("S2".to_string());
    assert_ne!(h1, h2);
    r.deliver_entry(h1, "T".to_string(), 100);
    let s1 = r.status_of(h1, 200);
    let s2 = r.status_of(h2, 200);
    assert_eq!(s1.stop_id, "S1");
    assert_eq!(s1.active_trips, vec!["T".to_string()]);
    assert_eq!(s2.stop_id, "S2");
    assert!(s2.active_trips.is_empty());
    assert_eq!(s2.time, None);
}

#[test]
fn handle_message_is_get_or_create() {
    let mut r = RouteFragmentRegistry::new();
    let h1 = r.handle(GetRouteFragment::new("X".to_string()));
    let h2 = r.get_or_create("X".to_string());
    assert_eq!(h1, h2);
}

#[test]
fn delivery_through_registry_pairs_observations() {
    let mut r = RouteFragmentRegistry::new();
    let h = r.get_or_create("S".to_string());
    assert_eq!(r.deliver_entry(h, "T".to_string(), 28800), PairOutcome::Stored);
    assert_eq!(r.deliver_leave(h, "T".to_string(), 29000), PairOutcome::Recorded(200));
    assert_eq!(r.status_of(h, 29000).time, Some(200));
}

#[test]
fn registry_name_updates_reach_the_fragment() {
    let mut r = RouteFragmentRegistry::new();
    let h = r.get_or_create("S".to_string());
    r.set_start_name(h, "Plaza".to_string());
    assert_eq!(r.status_of(h, 0).stop_name, "Plaza");
}

#[test]
fn collect_stats_reports_each_stop_in_order() {
    let mut r = RouteFragmentRegistry::new();
    let h = r.get_or_create("B".to_string());
    r.deliver_entry(h, "T".to_string(), 100);
    r.deliver_leave(h, "T".to_string(), 400);
    let ids = vec!["A".to_string(), "B".to_string()];
    let stats = r.collect_stats(&ids, 500);
    assert_eq!(stats.len(), 2);
    assert_eq!(stats[0].stop_id, "A");
    assert_eq!(stats[0].time, None);
    assert_eq!(stats[1].stop_id, "B");
    assert_eq!(stats[1].time, Some(300));
    assert_eq!(stats[1].update_secs, Some(100));
}

#[test]
fn collect_stats_creates_missing_fragments() {
    let mut r = RouteFragmentRegistry::new();
    let ids = vec!["A".to_string()];
    let stats = r.collect_stats(&ids, 0);
    assert_eq!(stats.len(), 1);
    assert_eq!(stats[0].stop_name, "?");
    let h1 = r.get_or_create("A".to_string());
    let again = r.get_or_create("A".to_string());
    assert_eq!(h1, again);
}

#[test]
fn trip_registry_same_id_returns_same_handle() {
    let mut r = TripRegistry::new();
    let h1 = r.get_or_create("V1".to_string());
    let h2 = r.get_or_create("V1".to_string());
    let h3 = r.get_or_create("V2".to_string());
    assert_eq!(h1, h2);
    assert_ne!(h1, h3);
}

#[test]
fn trip_registry_handle_message_is_get_or_create() {
    let mut r = TripRegistry::new();
    let h1 = r.handle(RegisterTrip::new("V".to_string()));
    let h2 = r.get_or_create("V".to_string());
    assert_eq!(h1, h2);
}
