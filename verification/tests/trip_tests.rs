use tramtrack::passage::{
    parse_seq_num, PassageActual, PassageStatus, PassageStop, PassageWelcome, Trip,
};
use tramtrack::route_fragment_registry::RouteFragmentRegistry;
use tramtrack::trip_registry::TripRegistry;

fn passage_record(stop_id: &str, stop_name: &str, seq: &str, time: Option<&str>) -> PassageActual {
    PassageActual {
        actual_time: time.map(|t| t.to_string()),
        planned_time: None,
        status: PassageStatus::Departed,
        stop: PassageStop {
            id: stop_id.to_string(),
            name: stop_name.to_string(),
            short_name: stop_id.to_string(),
        },
        stop_seq_num: seq.to_string(),
    }
}

fn response(actual: Vec<PassageActual>, old: Vec<PassageActual>) -> PassageWelcome {
    PassageWelcome {
        actual,
        direction_text: "Downtown".to_string(),
        old,
        route_name: "Line 1".to_string(),
    }
}

#[test]
fn parse_seq_num_accepts_decimal_numbers() {
    assert_eq!(parse_seq_num("0"), Some(0));
    assert_eq!(parse_seq_num("42"), Some(42));
    assert_eq!(parse_seq_num("0042"), Some(42));
    assert_eq!(parse_seq_num("4294967295"), Some(u32::MAX));
}

#[test]
fn parse_seq_num_rejects_bad_texts() {
    assert_eq!(parse_seq_num(""), None);
    assert_eq!(parse_seq_num("12a"), None);
    assert_eq!(parse_seq_num("-1"), None);
    assert_eq!(parse_seq_num("4294967296"), None);
    assert_eq!(parse_seq_num("00000000001"), None);
}

#[test]
fn first_sync_emits_entry_and_leave() {
    let mut t = Trip::new("V1".to_string());
    let p = response(
        vec![passage_record("A1", "Alpha", "5", Some("08:00"))],
        vec![passage_record("A0", "Start", "4", Some("07:58"))],
    );
    let r = t.sync(&p, 500);
    let entry = r.entry.expect("progress emits an entry event");
    assert_eq!(entry.fragment_id, "A1");
    assert_eq!(entry.trip_id, "V1");
    assert_eq!(entry.time, 28800);
    let leave = r.leave.expect("a just-passed record emits a leave event");
    assert_eq!(leave.fragment_id, "A0");
    assert_eq!(leave.trip_id, "V1");
    assert_eq!(leave.time, 28680);
    assert!(!r.entry_error);
    assert!(!r.leave_error);
}

#[test]
fn unchanged_sequence_number_is_no_progress() {
    let mut t = Trip::new("V1".to_string());
    let p = response(vec![passage_record("A1", "Alpha", "5", Some("08:00"))], Vec::new());
    assert!(t.sync(&p, 500).entry.is_some());
    let r = t.sync(&p, 560);
    assert!(r.entry.is_none());
    assert!(!r.entry_error);
}

#[test]
fn empty_actual_list_does_nothing() {
    let mut t = Trip::new("V1".to_string());
    let r = t.sync(&response(Vec::new(), Vec::new()), 500);
    assert!(r.entry.is_none());
    assert!(r.leave.is_none());
    assert!(!r.entry_error);
    assert!(!r.leave_error);
}

#[test]
fn malformed_sequence_number_is_a_decode_error() {
    let mut t = Trip::new("V1".to_string());
    let p = response(vec![passage_record("A1", "Alpha", "abc", Some("08:00"))], Vec::new());
    let r = t.sync(&p, 500);
    assert!(r.entry.is_none());
    assert!(r.entry_error);
}

#[test]
fn missing_entry_time_is_a_decode_error_but_progress_sticks() {
    let mut t = Trip::new("V1".to_string());
    let p = response(vec![passage_record("A1", "Alpha", "5", None)], Vec::new());
    let r = t.sync(&p, 500);
    assert!(r.entry.is_none());
    assert!(r.entry_error);
    // The sequence number was recorded: the same record is no longer progress.
    let p2 = response(vec![passage_record("A1", "Alpha", "5", Some("08:00"))], Vec::new());
    let r2 = t.sync(&p2, 560);
    assert!(r2.entry.is_none());
    assert!(!r2.entry_error);
}

#[test]
fn malformed_leave_time_is_a_decode_error() {
    let mut t = Trip::new("V1".to_string());
    let p = response(
        vec![passage_record("A1", "Alpha", "5", Some("08:00"))],
        vec![passage_record("A0", "Start", "4", Some("99:99"))],
    );
    let r = t.sync(&p, 500);
    assert!(r.leave.is_none());
    assert!(r.leave_error);
}

#[test]
fn last_old_record_provides_the_leave_event() {
    let mut t = Trip::new("V1".to_string());
    let p = response(
        Vec::new(),
        vec![
            passage_record("A0", "Start", "3", Some("07:50")),
            passage_record("A1", "Alpha", "4", Some("07:58")),
        ],
    );
    // With no upcoming record nothing is derived at all.
    let r = t.sync(&p, 500);
    assert!(r.leave.is_none());
    let p2 = response(
        vec![passage_record("A2", "Beta", "5", Some("08:00"))],
        vec![
            passage_record("A0", "Start", "3", Some("07:50")),
            passage_record("A1", "Alpha", "4", Some("07:58")),
        ],
    );
    let r2 = t.sync(&p2, 560);
    let leave = r2.leave.expect("the last just-passed record emits the leave");
    assert_eq!(leave.fragment_id, "A1");
    assert_eq!(leave.time, 28680);
}

#[test]
fn trip_syncs_measure_a_segment_through_the_registries() {
    let mut fragments = RouteFragmentRegistry::new();
    let mut trips = TripRegistry::new();
    let h = trips.get_or_create("V7".to_string());

    // The trip reaches stop A at 08:00.
    let p1 = response(vec![passage_record("A", "Alpha", "5", Some("08:00"))], Vec::new());
    trips.sync_at(h, &mut fragments, &p1, 100);

    // Later it reaches stop B, having left A at 08:02.
    let p2 = response(
        vec![passage_record("B", "Beta", "6", Some("08:03"))],
        vec![passage_record("A", "Alpha", "5", Some("08:02"))],
    );
    trips.sync_at(h, &mut fragments, &p2, 160);

    let ids = vec!["A".to_string(), "B".to_string()];
    let stats = fragments.collect_stats(&ids, 29000);
    assert_eq!(stats[0].time, Some(120));
    assert!(stats[0].active_trips.is_empty());
    assert_eq!(stats[1].time, None);
    assert_eq!(stats[1].active_trips, vec!["V7".to_string()]);
}
