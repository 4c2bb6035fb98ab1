//! Per-trip poller: tracks one vehicle's progression across stops from trip
//! passage responses, emitting entry and leave events to route fragments
//! when the trip makes progress.

use vstd::prelude::*;
use crate::clock::{clock_text_value, is_clock_text, is_digit, is_time_of_day, parse_clock_text};
use crate::route_fragment::{entry_step, leave_step};
use crate::route_fragment_registry::{
    get_or_create_step,
    FragmentRegistryModel,
    RouteFragmentRegistry,
};

verus! {

/// One stop of a trip's passage list.
pub struct PassageStop {
    pub id: String,
    pub name: String,
    pub short_name: String,
}

/// The reported status of one passage of a trip.
pub enum PassageStatus {
    Departed,
    Predicted,
    Planned,
    Stopping,
}

/// One record of a trip's passage list: the stop, its sequence number text
/// and the timestamp texts.
pub struct PassageActual {
    pub actual_time: Option<String>,
    pub planned_time: Option<String>,
    pub status: PassageStatus,
    pub stop: PassageStop,
    pub stop_seq_num: String,
}

/// A trip-detail response: upcoming and just-passed records plus route
/// metadata.
pub struct PassageWelcome {
    pub actual: Vec<PassageActual>,
    pub direction_text: String,
    pub old: Vec<PassageActual>,
    pub route_name: String,
}

/// Route metadata of a trip, recorded once on first sight.
pub struct TripMeta {
    pub route_name: String,
    pub direction_text: String,
}

/// Whether every character of `s` is an ASCII decimal digit.
pub open spec fn all_digits(s: Seq<char>) -> bool {
    forall|i: int| 0 <= i < s.len() ==> is_digit(#[trigger] s[i])
}

/// The number denoted by a digit sequence, most significant digit first.
pub open spec fn digits_value(s: Seq<char>) -> int
    decreases s.len(),
{
    if s.len() == 0 {
        0
    } else {
        digits_value(s.drop_last()) * 10 + (s.last() as u32 - 48)
    }
}

spec fn pow10(n: nat) -> int
    decreases n,
{
    if n == 0 {
        1
    } else {
        10 * pow10((n - 1) as nat)
    }
}

proof fn lemma_digits_value_bound(s: Seq<char>)
    requires
        all_digits(s),
    ensures
        0 <= digits_value(s) < pow10(s.len()),
    decreases s.len(),
{
    if s.len() > 0 {
        assert(all_digits(s.drop_last())) by {
            assert(forall|i: int|
                0 <= i < s.drop_last().len() ==> is_digit(#[trigger] s.drop_last()[i]));
        }
        lemma_digits_value_bound(s.drop_last());
        assert(is_digit(s.last()));
    }
}

proof fn lemma_pow10_bound(n: nat)
    requires
        n <= 10,
    ensures
        pow10(n) <= 10000000000,
    decreases n,
{
    assert(pow10(10) == 10000000000) by {
        reveal_with_fuel(pow10, 11);
    };
    if n < 10 {
        lemma_pow10_increases(n, 10);
    }
}

proof fn lemma_pow10_increases(a: nat, b: nat)
    requires
        a <= b,
    ensures
        1 <= pow10(a) <= pow10(b),
    decreases b,
{
    if a < b {
        lemma_pow10_increases(a, (b - 1) as nat);
    } else if a == b && a > 0 {
        lemma_pow10_increases((a - 1) as nat, (b - 1) as nat);
    }
}

/// The value a decimal text of one to ten digits denotes, when it fits a
/// `u32`; `None` for every other text.
pub open spec fn spec_seq_num_of(s: Seq<char>) -> Option<u32> {
    if 1 <= s.len() <= 10 && all_digits(s) && digits_value(s) <= u32::MAX {
        Some(digits_value(s) as u32)
    } else {
        None
    }
}

/// Parses a stop-sequence number: a decimal text of one to ten digits whose
/// value fits a `u32`. Rejects every other shape.
pub fn parse_seq_num(s: &str) -> (r: Option<u32>)
    ensures
        r == spec_seq_num_of(s@),
{
    let n = s.unicode_len();
    if n == 0 || n > 10 {
        return None;
    }
    let mut acc: u64 = 0;
    let mut i: usize = 0;
    while i < n
        invariant
            n == s@.len(),
            1 <= n <= 10,
            i <= n,
            all_digits(s@.take(i as int)),
            acc == digits_value(s@.take(i as int)),
            acc < 10000000000,
        decreases n - i,
    {
        let c = s.get_char(i);
        if !(48 <= c as u32 && c as u32 <= 57) {
            return None;
        }
        proof {
            assert(s@.take(i + 1).drop_last() =~= s@.take(i as int));
            assert(s@.take(i + 1).last() == s@[i as int]);
            assert(all_digits(s@.take(i + 1)));
            lemma_digits_value_bound(s@.take(i + 1));
            lemma_pow10_bound((i + 1) as nat);
        }
        acc = acc * 10 + (c as u32 - 48) as u64;
        i += 1;
    }
    proof {
        assert(s@.take(n as int) =~= s@);
    }
    if acc > 0xFFFFFFFF {
        None
    } else {
        Some(acc as u32)
    }
}

/// The time of day a passage record's timestamp text denotes, if the text
/// is present and well formed.
pub open spec fn spec_clock_of(t: Option<String>) -> Option<u32> {
    match t {
        Some(s) => if is_clock_text(s@) {
            Some(clock_text_value(s@) as u32)
        } else {
            None
        },
        None => None,
    }
}

/// Mathematical state of one trip poller.
#[verifier::ext_equal]
pub ghost struct TripModel {
    pub id: Seq<char>,
    pub meta: Option<(Seq<char>, Seq<char>)>,
    pub stop_seq: Option<u32>,
    pub next_stop: Option<Seq<char>>,
    pub last_progress_time: Option<u64>,
    pub update_time: Option<u64>,
}

/// The state of a trip that has not been synced yet.
pub open spec fn fresh_trip(id: Seq<char>) -> TripModel {
    TripModel {
        id: id,
        meta: None,
        stop_seq: None,
        next_stop: None,
        last_progress_time: None,
        update_time: None,
    }
}

/// One vehicle trip's tracked progression: route metadata, last known stop
/// sequence number and next stop, and progress timestamps.
pub struct Trip {
    id: String,
    trip_meta: Option<TripMeta>,
    stop_seq: Option<u32>,
    next_stop: Option<String>,
    last_progress_time: Option<u64>,
    update_time: Option<u64>,
}

impl View for Trip {
    type V = TripModel;

    closed spec fn view(&self) -> TripModel {
        TripModel {
            id: self.id@,
            meta: match self.trip_meta {
                Some(m) => Some((m.route_name@, m.direction_text@)),
                None => None,
            },
            stop_seq: self.stop_seq,
            next_stop: match self.next_stop {
                Some(n) => Some(n@),
                None => None,
            },
            last_progress_time: self.last_progress_time,
            update_time: self.update_time,
        }
    }
}

/// A crossing event a trip sync derived: which fragment it addresses, for
/// which trip, at which time of day.
pub struct TripCrossing {
    pub fragment_id: String,
    pub trip_id: String,
    pub time: u32,
}

/// What one trip sync produced: at most one entry and one leave event, and
/// whether a malformed record prevented either.
pub struct TripSyncReport {
    pub entry: Option<TripCrossing>,
    pub leave: Option<TripCrossing>,
    pub entry_error: bool,
    pub leave_error: bool,
}

/// The mathematical counterpart of a sync report, beside the trip state it
/// leads to. An event is a (fragment id, trip id, time of day) triple.
#[verifier::ext_equal]
pub ghost struct TripSyncSpec {
    pub state: TripModel,
    pub entry: Option<(Seq<char>, Seq<char>, u32)>,
    pub leave: Option<(Seq<char>, Seq<char>, u32)>,
    pub entry_error: bool,
    pub leave_error: bool,
}

/// The outcome of digesting one trip-detail response at monotonic time
/// `now`: the update timestamp always advances; route metadata is recorded
/// once, first write wins; a changed stop-sequence number is progress, which
/// updates the position fields and emits an entry event for the new current
/// stop; a just-passed record emits a leave event for its stop. Crossing
/// times come from the records' timestamp texts; a record whose number or
/// timestamp does not decode yields an error flag instead of an event.
pub open spec fn trip_sync_step(m: TripModel, p: PassageWelcome, now: u64) -> TripSyncSpec {
    let m1 = TripModel {
        update_time: Some(now),
        meta: if m.meta is None {
            Some((p.route_name@, p.direction_text@))
        } else {
            m.meta
        },
        ..m
    };
    if p.actual@.len() == 0 {
        TripSyncSpec { state: m1, entry: None, leave: None, entry_error: false, leave_error: false }
    } else {
        let a = p.actual@[0];
        let progress = match spec_seq_num_of(a.stop_seq_num@) {
            Some(seq) => if m.stop_seq != Some(seq) {
                let m2 = TripModel {
                    stop_seq: Some(seq),
                    next_stop: Some(a.stop.name@),
                    last_progress_time: Some(now),
                    ..m1
                };
                match spec_clock_of(a.actual_time) {
                    Some(t) => (m2, Some((a.stop.id@, m.id, t)), false),
                    None => (m2, None::<(Seq<char>, Seq<char>, u32)>, true),
                }
            } else {
                (m1, None::<(Seq<char>, Seq<char>, u32)>, false)
            },
            None => (m1, None::<(Seq<char>, Seq<char>, u32)>, true),
        };
        let leave_part = if p.old@.len() == 0 {
            (None::<(Seq<char>, Seq<char>, u32)>, false)
        } else {
            let o = p.old@[p.old@.len() - 1];
            match spec_clock_of(o.actual_time) {
                Some(t) => (Some((o.stop.id@, m.id, t)), false),
                None => (None::<(Seq<char>, Seq<char>, u32)>, true),
            }
        };
        TripSyncSpec {
            state: progress.0,
            entry: progress.1,
            leave: leave_part.0,
            entry_error: progress.2,
            leave_error: leave_part.1,
        }
    }
}

impl Trip {
    /// Creates the tracker for one trip id, in its initial unknown state.
    pub fn new(id: String) -> (t: Trip)
        ensures
            t@ == fresh_trip(id@),
    {
        Trip {
            id: id,
            trip_meta: None,
            stop_seq: None,
            next_stop: None,
            last_progress_time: None,
            update_time: None,
        }
    }

    /// Digests one trip-detail response, as `trip_sync_step` states, and
    /// reports the derived crossing events. Every reported crossing time is
    /// a valid time of day.
    pub fn sync(&mut self, p: &PassageWelcome, now: u64) -> (r: TripSyncReport)
        ensures
            ({
                let s = trip_sync_step(old(self)@, *p, now);
                &&& final(self)@ == s.state
                &&& match r.entry {
                    Some(c) => s.entry == Some((c.fragment_id@, c.trip_id@, c.time))
                        && is_time_of_day(c.time),
                    None => s.entry is None,
                }
                &&& match r.leave {
                    Some(c) => s.leave == Some((c.fragment_id@, c.trip_id@, c.time))
                        && is_time_of_day(c.time),
                    None => s.leave is None,
                }
                &&& r.entry_error == s.entry_error
                &&& r.leave_error == s.leave_error
            }),
    {
        self.update_time = Some(now);
        if self.trip_meta.is_none() {
            self.trip_meta = Some(
                TripMeta {
                    route_name: p.route_name.clone(),
                    direction_text: p.direction_text.clone(),
                },
            );
        }
        if p.actual.len() == 0 {
            proof {
                assert(self@ =~= trip_sync_step(old(self)@, *p, now).state);
            }
            return TripSyncReport { entry: None, leave: None, entry_error: false, leave_error: false };
        }
        let a = &p.actual[0];
        let mut entry: Option<TripCrossing> = None;
        let mut entry_error: bool = false;
        match parse_seq_num(a.stop_seq_num.as_str()) {
            Some(seq) => {
                let changed = match self.stop_seq {
                    Some(old_seq) => old_seq != seq,
                    None => true,
                };
                if changed {
                    self.stop_seq = Some(seq);
                    self.next_stop = Some(a.stop.name.clone());
                    self.last_progress_time = Some(now);
                    let t = match &a.actual_time {
                        Some(text) => parse_clock_text(text.as_str()),
                        None => None,
                    };
                    match t {
                        Some(time) => {
                            entry = Some(
                                TripCrossing {
                                    fragment_id: a.stop.id.clone(),
                                    trip_id: self.id.clone(),
                                    time: time,
                                },
                            );
                        },
                        None => {
                            entry_error = true;
                        },
                    }
                }
            },
            None => {
                entry_error = true;
            },
        }
        let mut leave: Option<TripCrossing> = None;
        let mut leave_error: bool = false;
        if p.old.len() > 0 {
            let o = &p.old[p.old.len() - 1];
            let t = match &o.actual_time {
                Some(text) => parse_clock_text(text.as_str()),
                None => None,
            };
            match t {
                Some(time) => {
                    leave = Some(
                        TripCrossing {
                            fragment_id: o.stop.id.clone(),
                            trip_id: self.id.clone(),
                            time: time,
                        },
                    );
                },
                None => {
                    leave_error = true;
                },
            }
        }
        proof {
            assert(self@ =~= trip_sync_step(old(self)@, *p, now).state);
        }
        TripSyncReport {
            entry: entry,
            leave: leave,
            entry_error: entry_error,
            leave_error: leave_error,
        }
    }
}

/// The registry state after delivering the events of one trip sync: the
/// entry event to its fragment, then the leave event to its fragment, each
/// fragment created first if absent.
pub open spec fn trip_apply_step(m: FragmentRegistryModel, s: TripSyncSpec) -> FragmentRegistryModel {
    let m2 = match s.entry {
        Some(e) => {
            let (ma, h) = get_or_create_step(m, e.0);
            ma.with_fragment(h as int, entry_step(ma.fragments[h as int], e.1, e.2))
        },
        None => m,
    };
    match s.leave {
        Some(e) => {
            let (mb, h) = get_or_create_step(m2, e.0);
            mb.with_fragment(h as int, leave_step(mb.fragments[h as int], e.1, e.2))
        },
        None => m2,
    }
}

/// Digests one trip-detail response and delivers the derived crossing
/// events to their route fragments, in order.
pub fn apply_trip_sync(
    registry: &mut RouteFragmentRegistry,
    trip: &mut Trip,
    p: &PassageWelcome,
    now: u64,
) -> (r: TripSyncReport)
    requires
        old(registry).wf(),
    ensures
        final(registry).wf(),
        final(trip)@ == trip_sync_step(old(trip)@, *p, now).state,
        final(registry)@ == trip_apply_step(old(registry)@, trip_sync_step(old(trip)@, *p, now)),
        r.entry_error == trip_sync_step(old(trip)@, *p, now).entry_error,
        r.leave_error == trip_sync_step(old(trip)@, *p, now).leave_error,
{
    let r = trip.sync(p, now);
    match &r.entry {
        Some(c) => {
            let h = registry.get_or_create(c.fragment_id.clone());
            registry.deliver_entry(h, c.trip_id.clone(), c.time);
        },
        None => {},
    }
    match &r.leave {
        Some(c) => {
            let h = registry.get_or_create(c.fragment_id.clone());
            registry.deliver_leave(h, c.trip_id.clone(), c.time);
        },
        None => {},
    }
    proof {
        assert(registry@ =~= trip_apply_step(old(registry)@, trip_sync_step(old(trip)@, *p, now)));
    }
    r
}

} // verus!
