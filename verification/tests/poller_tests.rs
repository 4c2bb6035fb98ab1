use tramtrack::route_fragment_registry::RouteFragmentRegistry;
use tramtrack::stop_poller::{
    apply_stop_cycle, Actual, StopPoller, Welcome, FALLBACK_POLL_DELAY_SECS, MIN_POLL_DELAY_SECS,
};

fn record(trip_id: &str, rel: i32) -> Actual {
    Actual {
        actual_relative_time: rel,
        actual_time: None,
        direction: "Downtown".to_string(),
        mixed_time: "5 min".to_string(),
        passageid: "p1".to_string(),
        pattern_text: "1".to_string(),
        planned_time: "08:00".to_string(),
        route_id: "r1".to_string(),
        status: "DEPARTED".to_string(),
        trip_id: trip_id.to_string(),
        vehicle_id: None,
    }
}

fn board(short_name: &str, name: &str, actual: Vec<Actual>, old: Vec<Actual>) -> Welcome {
    Welcome {
        actual,
        first_passage_time: 0,
        last_passage_time: 0,
        old,
        routes: Vec::new(),
        stop_name: name.to_string(),
        stop_short_name: short_name.to_string(),
    }
}

#[test]
fn next_delay_uses_eta_above_the_floor() {
    assert_eq!(StopPoller::next_delay(Some(31)), 31);
    assert_eq!(StopPoller::next_delay(Some(200)), 200);
    assert_eq!(StopPoller::next_delay(Some(i32::MAX)), i32::MAX as u32);
}

#[test]
fn next_delay_falls_back_at_or_below_the_floor() {
    assert_eq!(StopPoller::next_delay(Some(30)), FALLBACK_POLL_DELAY_SECS);
    assert_eq!(StopPoller::next_delay(Some(0)), FALLBACK_POLL_DELAY_SECS);
    assert_eq!(StopPoller::next_delay(Some(-45)), FALLBACK_POLL_DELAY_SECS);
    assert_eq!(StopPoller::next_delay(None), FALLBACK_POLL_DELAY_SECS);
}

#[test]
fn next_delay_never_goes_below_the_floor() {
    for eta in [Some(i32::MIN), Some(-1), Some(0), Some(29), Some(30), Some(31), Some(500), None] {
        assert!(StopPoller::next_delay(eta) >= MIN_POLL_DELAY_SECS);
    }
}

#[test]
fn process_board_derives_events_and_delay() {
    let mut p = StopPoller::new("402".to_string(), Some("401".to_string()), 0);
    let b = board(
        "P1",
        "Plaza",
        vec![record("U1", 45)],
        vec![record("T1", -30), record("T2", -60)],
    );
    let actions = p.process_board(&b, 1000);
    assert_eq!(actions.delay, 45);
    assert_eq!(actions.start_fragment_id, "P1");
    assert_eq!(actions.end_fragment_id, Some("401".to_string()));
    assert_eq!(actions.stop_name, "Plaza");
    assert_eq!(actions.entries.len(), 2);
    assert_eq!(actions.entries[0].trip_id, "T1");
    assert_eq!(actions.entries[0].time, 970);
    assert_eq!(actions.entries[1].trip_id, "T2");
    assert_eq!(actions.entries[1].time, 940);
    assert_eq!(actions.leaves.len(), 2);
    assert_eq!(actions.leaves[0].trip_id, "T1");
    assert_eq!(actions.leaves[0].time, 970);
}

#[test]
fn process_board_without_previous_stop_emits_no_leaves() {
    let mut p = StopPoller::new("401".to_string(), None, 0);
    let b = board("P0", "Head", Vec::new(), vec![record("T1", -10)]);
    let actions = p.process_board(&b, 500);
    assert_eq!(actions.delay, FALLBACK_POLL_DELAY_SECS);
    assert_eq!(actions.end_fragment_id, None);
    assert_eq!(actions.entries.len(), 1);
    assert!(actions.leaves.is_empty());
}

#[test]
fn two_stop_cycles_measure_a_segment() {
    let mut registry = RouteFragmentRegistry::new();
    let mut head = StopPoller::new("S1".to_string(), None, 0);
    let mut second = StopPoller::new("S2".to_string(), Some("S1".to_string()), 0);

    // The vehicle just left the first stop.
    let b1 = board("S1", "First", vec![record("U", 300)], vec![record("T", -20)]);
    let d1 = apply_stop_cycle(&mut registry, &mut head, &b1, 1000);
    assert_eq!(d1, 300);

    // Later it leaves the second stop: the leave event closes segment S1.
    let b2 = board("S2", "Second", Vec::new(), vec![record("T", -10)]);
    let d2 = apply_stop_cycle(&mut registry, &mut second, &b2, 1200);
    assert_eq!(d2, FALLBACK_POLL_DELAY_SECS);

    let ids = vec!["S1".to_string(), "S2".to_string()];
    let stats = registry.collect_stats(&ids, 1200);
    // Segment S1 -> S2: entered at 980, left at 1190.
    assert_eq!(stats[0].time, Some(210));
    assert_eq!(stats[0].stop_name, "First");
    assert!(stats[0].active_trips.is_empty());
    // Segment starting at S2 still has the trip in flight.
    assert_eq!(stats[1].time, None);
    assert_eq!(stats[1].active_trips, vec!["T".to_string()]);
    assert_eq!(stats[1].stop_name, "Second");
}

#[test]
fn stop_cycle_events_wrap_around_midnight() {
    let mut registry = RouteFragmentRegistry::new();
    let mut p = StopPoller::new("S9".to_string(), None, 0);
    let b = board("S9", "Late", Vec::new(), vec![record("T", -100)]);
    apply_stop_cycle(&mut registry, &mut p, &b, 50);
    let ids = vec!["S9".to_string()];
    let stats = registry.collect_stats(&ids, 50);
    // 50 - 100 wraps to the end of the previous day; the trip is in flight.
    assert_eq!(stats[0].active_trips, vec!["T".to_string()]);
}
