//! Per-segment correlator: pairs entry and leave observations per trip,
//! tolerating arrival in either order, and accumulates positive duration
//! samples.

use vstd::prelude::*;
use crate::clock::is_time_of_day;
use crate::directory::Directory;

verus! {

/// Mathematical state of one route fragment.
///
/// `awaiting_leave` holds, per trip, the observed entry time of trips whose
/// leave has not arrived; `awaiting_entry` holds the observed leave time of
/// trips whose entry has not arrived.
#[verifier::ext_equal]
pub ghost struct FragmentModel {
    pub id: Seq<char>,
    pub start_name: Seq<char>,
    pub stop_name: Seq<char>,
    pub durations: Seq<u32>,
    pub last_pairing: Option<u32>,
    pub awaiting_leave: Map<Seq<char>, u32>,
    pub awaiting_entry: Map<Seq<char>, u32>,
}

impl FragmentModel {
    /// No trip awaits both its leave and its entry at once, and every
    /// recorded duration is strictly positive.
    pub open spec fn wf(self) -> bool {
        &&& forall|t: Seq<char>|
            #[trigger] self.awaiting_leave.contains_key(t) ==> !self.awaiting_entry.contains_key(t)
        &&& forall|i: int| 0 <= i < self.durations.len() ==> #[trigger] self.durations[i] > 0
    }
}

/// The state of a fragment that has seen nothing yet: unknown stop names and
/// no observations.
pub open spec fn fresh_fragment(id: Seq<char>) -> FragmentModel {
    FragmentModel {
        id: id,
        start_name: "?"@,
        stop_name: "?"@,
        durations: Seq::empty(),
        last_pairing: None,
        awaiting_leave: Map::empty(),
        awaiting_entry: Map::empty(),
    }
}

/// The state after an entry observation for `trip` at time `t`: pairs with a
/// waiting leave observation if there is one (recording the duration only
/// when it is strictly positive), otherwise stores the entry time.
pub open spec fn entry_step(m: FragmentModel, trip: Seq<char>, t: u32) -> FragmentModel {
    if m.awaiting_entry.contains_key(trip) {
        let leave_t = m.awaiting_entry[trip];
        FragmentModel {
            awaiting_entry: m.awaiting_entry.remove(trip),
            durations: if leave_t > t {
                m.durations.push((leave_t - t) as u32)
            } else {
                m.durations
            },
            last_pairing: if leave_t > t {
                Some(leave_t)
            } else {
                m.last_pairing
            },
            ..m
        }
    } else {
        FragmentModel { awaiting_leave: m.awaiting_leave.insert(trip, t), ..m }
    }
}

/// The state after a leave observation for `trip` at time `t`: symmetric to
/// `entry_step`.
pub open spec fn leave_step(m: FragmentModel, trip: Seq<char>, t: u32) -> FragmentModel {
    if m.awaiting_leave.contains_key(trip) {
        let entry_t = m.awaiting_leave[trip];
        FragmentModel {
            awaiting_leave: m.awaiting_leave.remove(trip),
            durations: if t > entry_t {
                m.durations.push((t - entry_t) as u32)
            } else {
                m.durations
            },
            last_pairing: if t > entry_t {
                Some(t)
            } else {
                m.last_pairing
            },
            ..m
        }
    } else {
        FragmentModel { awaiting_entry: m.awaiting_entry.insert(trip, t), ..m }
    }
}

/// What one observation did: completed a pairing and recorded its duration,
/// completed a pairing whose duration was not positive and discarded it, or
/// stored the observation to await its counterpart.
#[derive(Clone, Copy, Debug, PartialEq, Eq, Structural)]
pub enum PairOutcome {
    Recorded(u32),
    Discarded,
    Stored,
}

/// The outcome `entry_step` reports for this observation.
pub open spec fn entry_outcome(m: FragmentModel, trip: Seq<char>, t: u32) -> PairOutcome {
    if m.awaiting_entry.contains_key(trip) {
        if m.awaiting_entry[trip] > t {
            PairOutcome::Recorded((m.awaiting_entry[trip] - t) as u32)
        } else {
            PairOutcome::Discarded
        }
    } else {
        PairOutcome::Stored
    }
}

/// The outcome `leave_step` reports for this observation.
pub open spec fn leave_outcome(m: FragmentModel, trip: Seq<char>, t: u32) -> PairOutcome {
    if m.awaiting_leave.contains_key(trip) {
        if t > m.awaiting_leave[trip] {
            PairOutcome::Recorded((t - m.awaiting_leave[trip]) as u32)
        } else {
            PairOutcome::Discarded
        }
    } else {
        PairOutcome::Stored
    }
}

/// An observation that a trip crossed a fragment's start boundary at a time
/// of day.
pub struct FragmentEntryEvent {
    pub trip_id: String,
    pub time: u32,
}

/// An observation that a trip crossed a fragment's end boundary at a time of
/// day.
pub struct FragmentLeaveEvent {
    pub trip_id: String,
    pub time: u32,
}

/// A request to update one of a fragment's two stop display names.
pub enum UpdateMeta {
    UpdateStartName(String),
    UpdateStopName(String),
}

/// A request for a fragment's status snapshot.
pub struct FragmentStatusRequest;

/// A status snapshot of one fragment: its identity, latest display name,
/// most recent duration sample, seconds since the last completed pairing,
/// and every trip still awaiting its counterpart observation, whether that
/// counterpart is the leave or the entry.
pub struct RouteFragmentStats {
    pub stop_id: String,
    pub stop_name: String,
    pub time: Option<u64>,
    pub update_secs: Option<u64>,
    pub active_trips: Vec<String>,
}

/// What `status` reports of a fragment model. The in-flight list holds
/// exactly the trips awaiting their counterpart observation — the keys of
/// both awaiting maps — stated by membership because its order is
/// unspecified.
pub open spec fn stats_match(m: FragmentModel, now: u32, r: RouteFragmentStats) -> bool {
    &&& r.stop_id@ == m.id
    &&& r.stop_name@ == m.start_name
    &&& r.time == if m.durations.len() > 0 {
        Some(m.durations.last() as u64)
    } else {
        None::<u64>
    }
    &&& r.update_secs == match m.last_pairing {
        Some(t) => if now >= t {
            Some((now - t) as u64)
        } else {
            Some(0u64)
        },
        None => None::<u64>,
    }
    &&& forall|i: int, j: int|
        0 <= i < j < r.active_trips@.len() ==> r.active_trips@[i]@ != r.active_trips@[j]@
    &&& forall|k: Seq<char>|
        #![trigger m.awaiting_leave.contains_key(k)]
        #![trigger m.awaiting_entry.contains_key(k)]
        (m.awaiting_leave.contains_key(k) || m.awaiting_entry.contains_key(k)) <==> (exists|i: int|
            0 <= i < r.active_trips@.len() && r.active_trips@[i]@ == k)
}

/// One directed segment between two adjacent stops, correlating entry and
/// leave observations per trip into duration samples.
pub struct RouteFragment {
    id: String,
    start_name: String,
    stop_name: String,
    durations: Vec<u32>,
    last_pairing: Option<u32>,
    awaiting_leave: Directory<u32>,
    awaiting_entry: Directory<u32>,
}

impl View for RouteFragment {
    type V = FragmentModel;

    closed spec fn view(&self) -> FragmentModel {
        FragmentModel {
            id: self.id@,
            start_name: self.start_name@,
            stop_name: self.stop_name@,
            durations: self.durations@,
            last_pairing: self.last_pairing,
            awaiting_leave: self.awaiting_leave@,
            awaiting_entry: self.awaiting_entry@,
        }
    }
}

impl RouteFragment {
    /// The fragment's representation is well formed and its model invariant
    /// holds.
    pub closed spec fn wf(&self) -> bool {
        &&& self.awaiting_leave.wf()
        &&& self.awaiting_entry.wf()
        &&& self@.wf()
    }

    /// Creates a fragment for the segment identified by `id`, in its initial
    /// empty state.
    pub fn new(id: String) -> (f: RouteFragment)
        ensures
            f.wf(),
            f@ == fresh_fragment(id@),
    {
        let f = RouteFragment {
            id: id,
            start_name: new_unknown_name(),
            stop_name: new_unknown_name(),
            durations: Vec::new(),
            last_pairing: None,
            awaiting_leave: Directory::new(),
            awaiting_entry: Directory::new(),
        };
        proof {
            assert(f@ =~= fresh_fragment(f.id@));
        }
        f
    }

    /// Records that `trip_id` crossed the fragment's start boundary at time
    /// `time`: pairs it with a waiting leave observation, or stores it.
    pub fn handle_entry(&mut self, trip_id: String, time: u32) -> (r: PairOutcome)
        requires
            old(self).wf(),
            is_time_of_day(time),
        ensures
            final(self).wf(),
            final(self)@ == entry_step(old(self)@, trip_id@, time),
            r == entry_outcome(old(self)@, trip_id@, time),
    {
        match self.awaiting_entry.get(&trip_id) {
            Some(leave_t) => {
                self.awaiting_entry.remove(&trip_id);
                let r = self.insert_finished_trip(time, leave_t);
                proof {
                    assert(self@ =~= entry_step(old(self)@, trip_id@, time));
                }
                r
            },
            None => {
                self.awaiting_leave.insert(trip_id, time);
                proof {
                    assert(self@ =~= entry_step(old(self)@, trip_id@, time));
                }
                PairOutcome::Stored
            },
        }
    }

    /// Closes one pairing: records the duration between the entry and leave
    /// observations when it is strictly positive, and discards it otherwise.
    fn insert_finished_trip(&mut self, start_time: u32, stop_time: u32) -> (r: PairOutcome)
        requires
            old(self).wf(),
        ensures
            final(self).wf(),
            final(self)@ == if stop_time > start_time {
                FragmentModel {
                    durations: old(self)@.durations.push((stop_time - start_time) as u32),
                    last_pairing: Some(stop_time),
                    ..old(self)@
                }
            } else {
                old(self)@
            },
            r == if stop_time > start_time {
                PairOutcome::Recorded((stop_time - start_time) as u32)
            } else {
                PairOutcome::Discarded
            },
    {
        if stop_time > start_time {
            self.durations.push(stop_time - start_time);
            self.last_pairing = Some(stop_time);
            PairOutcome::Recorded(stop_time - start_time)
        } else {
            PairOutcome::Discarded
        }
    }

    /// Records that `trip_id` crossed the fragment's end boundary at time
    /// `time`: pairs it with a waiting entry observation, or stores it.
    pub fn handle_leave(&mut self, trip_id: String, time: u32) -> (r: PairOutcome)
        requires
            old(self).wf(),
            is_time_of_day(time),
        ensures
            final(self).wf(),
            final(self)@ == leave_step(old(self)@, trip_id@, time),
            r == leave_outcome(old(self)@, trip_id@, time),
    {
        match self.awaiting_leave.get(&trip_id) {
            Some(entry_t) => {
                self.awaiting_leave.remove(&trip_id);
                let r = self.insert_finished_trip(entry_t, time);
                proof {
                    assert(self@ =~= leave_step(old(self)@, trip_id@, time));
                }
                r
            },
            None => {
                self.awaiting_entry.insert(trip_id, time);
                proof {
                    assert(self@ =~= leave_step(old(self)@, trip_id@, time));
                }
                PairOutcome::Stored
            },
        }
    }

    /// Sets the display name of the fragment's start stop; correlation state
    /// is untouched.
    pub fn set_start_name(&mut self, name: String)
        requires
            old(self).wf(),
        ensures
            final(self).wf(),
            final(self)@ == (FragmentModel { start_name: name@, ..old(self)@ }),
    {
        self.start_name = name;
    }

    /// Sets the display name of the fragment's end stop; correlation state
    /// is untouched.
    pub fn set_stop_name(&mut self, name: String)
        requires
            old(self).wf(),
        ensures
            final(self).wf(),
            final(self)@ == (FragmentModel { stop_name: name@, ..old(self)@ }),
    {
        self.stop_name = name;
    }

    /// Builds the request that renames the fragment's start stop.
    pub fn update_start(s: &str) -> (r: UpdateMeta)
        ensures
            r matches UpdateMeta::UpdateStartName(n) && n@ == s@,
    {
        UpdateMeta::UpdateStartName(s.to_owned())
    }

    /// Builds the request that renames the fragment's end stop.
    pub fn update_stop(s: &str) -> (r: UpdateMeta)
        ensures
            r matches UpdateMeta::UpdateStopName(n) && n@ == s@,
    {
        UpdateMeta::UpdateStopName(s.to_owned())
    }

    /// Applies a display-name update request; correlation state is
    /// untouched.
    pub fn handle_meta(&mut self, msg: UpdateMeta)
        requires
            old(self).wf(),
        ensures
            final(self).wf(),
            final(self)@ == match msg {
                UpdateMeta::UpdateStartName(n) => (FragmentModel {
                    start_name: n@,
                    ..old(self)@
                }),
                UpdateMeta::UpdateStopName(n) => (FragmentModel { stop_name: n@, ..old(self)@ }),
            },
    {
        match msg {
            UpdateMeta::UpdateStartName(n) => self.set_start_name(n),
            UpdateMeta::UpdateStopName(n) => self.set_stop_name(n),
        }
    }

    /// Reports the fragment's identity, latest start-stop name, most recent
    /// duration sample, seconds since the last completed pairing, and every
    /// trip awaiting its counterpart observation, from either awaiting map.
    /// Read-only.
    pub fn status(&self, now: u32) -> (r: RouteFragmentStats)
        requires
            self.wf(),
        ensures
            stats_match(self@, now, r),
    {
        let time = if self.durations.len() > 0 {
            Some(self.durations[self.durations.len() - 1] as u64)
        } else {
            None
        };
        let update_secs = match self.last_pairing {
            Some(t) => if now >= t {
                Some((now - t) as u64)
            } else {
                Some(0u64)
            },
            None => None,
        };
        let mut active_trips = self.awaiting_leave.keys();
        let ghost ks1: Seq<String> = active_trips@;
        let mut awaiting_entry_trips = self.awaiting_entry.keys();
        let ghost ks2: Seq<String> = awaiting_entry_trips@;
        active_trips.append(&mut awaiting_entry_trips);
        let ghost ks: Seq<String> = active_trips@;
        let r = RouteFragmentStats {
            stop_id: self.id.clone(),
            stop_name: self.start_name.clone(),
            time: time,
            update_secs: update_secs,
            active_trips: active_trips,
        };
        proof {
            assert(ks =~= ks1 + ks2);
            assert forall|i: int, j: int|
                0 <= i < j < r.active_trips@.len() implies r.active_trips@[i]@
                != r.active_trips@[j]@ by {
                if i < ks1.len() && j >= ks1.len() {
                    assert(ks[i] == ks1[i]);
                    assert(ks[j] == ks2[j - ks1.len()]);
                    assert(self.awaiting_leave@.contains_key(ks1[i]@));
                    assert(self@.awaiting_leave.contains_key(ks1[i]@));
                    assert(!self@.awaiting_entry.contains_key(ks1[i]@));
                    assert(self.awaiting_entry@.contains_key(ks2[j - ks1.len()]@));
                    assert(self@.awaiting_entry.contains_key(ks2[j - ks1.len()]@));
                } else if i >= ks1.len() {
                    assert(ks[i] == ks2[i - ks1.len()]);
                    assert(ks[j] == ks2[j - ks1.len()]);
                } else {
                    assert(ks[i] == ks1[i]);
                    assert(ks[j] == ks1[j]);
                }
            }
            assert forall|k: Seq<char>|
                #![trigger self@.awaiting_leave.contains_key(k)]
                #![trigger self@.awaiting_entry.contains_key(k)]
                (self@.awaiting_leave.contains_key(k) || self@.awaiting_entry.contains_key(k))
                <==> (exists|i: int|
                0 <= i < r.active_trips@.len() && r.active_trips@[i]@ == k) by {
                if self@.awaiting_leave.contains_key(k) {
                    assert(self.awaiting_leave@.contains_key(k));
                    let i = choose|i: int| 0 <= i < ks1.len() && ks1[i]@ == k;
                    assert(r.active_trips@[i]@ == k);
                }
                if self@.awaiting_entry.contains_key(k) {
                    assert(self.awaiting_entry@.contains_key(k));
                    let i = choose|i: int| 0 <= i < ks2.len() && ks2[i]@ == k;
                    assert(r.active_trips@[ks1.len() + i]@ == k);
                }
                if exists|i: int| 0 <= i < ks.len() && ks[i]@ == k {
                    let i = choose|i: int| 0 <= i < ks.len() && ks[i]@ == k;
                    if i < ks1.len() {
                        assert(ks1[i]@ == k);
                        assert(self.awaiting_leave@.contains_key(k));
                    } else {
                        assert(ks2[i - ks1.len()]@ == k);
                        assert(self.awaiting_entry@.contains_key(k));
                    }
                }
            }
        }
        r
    }
}

impl RouteFragment {
    /// Answers a status request; the message form of `status`.
    pub fn handle_status(&self, _msg: FragmentStatusRequest, now: u32) -> (r: RouteFragmentStats)
        requires
            self.wf(),
        ensures
            stats_match(self@, now, r),
    {
        self.status(now)
    }
}

/// A fresh `String` for a stop whose display name is not yet known.
fn new_unknown_name() -> (s: String)
    ensures
        s@ == "?"@,
{
    let s = String::from_str("?");
    s
}

/// One entry and one leave observation for a trip that neither awaiting map
/// holds produce, in either delivery order, exactly one duration sample,
/// equal to the leave time minus the entry time, when the leave is strictly
/// later; otherwise no sample. Both awaiting maps end without the trip
/// either way.
pub proof fn lemma_pair_once_any_order(
    m: FragmentModel,
    trip: Seq<char>,
    entry_t: u32,
    leave_t: u32,
)
    requires
        !m.awaiting_leave.contains_key(trip),
        !m.awaiting_entry.contains_key(trip),
    ensures
        ({
            let m1 = leave_step(entry_step(m, trip, entry_t), trip, leave_t);
            &&& (leave_t > entry_t ==> m1.durations == m.durations.push((leave_t - entry_t) as u32))
            &&& (leave_t <= entry_t ==> m1.durations == m.durations)
            &&& !m1.awaiting_leave.contains_key(trip)
            &&& !m1.awaiting_entry.contains_key(trip)
        }),
        ({
            let m2 = entry_step(leave_step(m, trip, leave_t), trip, entry_t);
            &&& (leave_t > entry_t ==> m2.durations == m.durations.push((leave_t - entry_t) as u32))
            &&& (leave_t <= entry_t ==> m2.durations == m.durations)
            &&& !m2.awaiting_leave.contains_key(trip)
            &&& !m2.awaiting_entry.contains_key(trip)
        }),
{
}

/// A fragment that has received one entry observation and nothing else
/// reports exactly that trip as in flight and has recorded no duration.
pub proof fn lemma_single_entry_in_flight(id: Seq<char>, trip: Seq<char>, t: u32)
    ensures
        ({
            let m1 = entry_step(fresh_fragment(id), trip, t);
            &&& m1.awaiting_leave.dom() == set![trip]
            &&& m1.awaiting_entry.dom() == Set::<Seq<char>>::empty()
            &&& m1.durations.len() == 0
        }),
{
    let m1 = entry_step(fresh_fragment(id), trip, t);
    assert(m1.awaiting_leave.dom() =~= set![trip]);
    assert(m1.awaiting_entry.dom() =~= Set::<Seq<char>>::empty());
}

} // verus!
