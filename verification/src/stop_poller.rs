//! Per-stop poller: the primary event source. From one departure-board
//! response it derives the next poll delay, entry events for the segment
//! starting at this stop, and leave events for the segment ending here.

use vstd::prelude::*;
use crate::clock::{is_time_of_day, spec_time_plus_offset, time_plus_offset};
use crate::route_fragment::{
    entry_step,
    leave_step,
    FragmentEntryEvent,
    FragmentLeaveEvent,
    FragmentModel,
};
use crate::route_fragment_registry::{
    get_or_create_step,
    FragmentRegistryModel,
    RouteFragmentRegistry,
};

verus! {

/// One passage record of a stop's departure board: a scheduled or real-time
/// vehicle visit, with its relative time to departure in seconds.
pub struct Actual {
    pub actual_relative_time: i32,
    pub actual_time: Option<String>,
    pub direction: String,
    pub mixed_time: String,
    pub passageid: String,
    pub pattern_text: String,
    pub planned_time: String,
    pub route_id: String,
    pub status: String,
    pub trip_id: String,
    pub vehicle_id: Option<String>,
}

/// Route metadata attached to a departure board.
pub struct Route {
    pub authority: String,
    pub directions: Vec<String>,
    pub id: String,
    pub name: String,
    pub route_type: String,
    pub short_name: String,
}

/// A stop's departure board: the upcoming passages, the just-passed ones,
/// and the stop's names.
pub struct Welcome {
    pub actual: Vec<Actual>,
    pub first_passage_time: i64,
    pub last_passage_time: i64,
    pub old: Vec<Actual>,
    pub routes: Vec<Route>,
    pub stop_name: String,
    pub stop_short_name: String,
}

/// The floor under every computed poll delay, in seconds.
pub const MIN_POLL_DELAY_SECS: u32 = 30;

/// The delay used when no upcoming departure is listed, or the soonest one
/// is at or below the floor, in seconds.
pub const FALLBACK_POLL_DELAY_SECS: u32 = 120;

/// The next poll delay derived from the soonest upcoming departure's
/// relative time: that time itself when it exceeds the floor, the fallback
/// otherwise.
pub open spec fn spec_next_delay(eta: Option<i32>) -> u32 {
    match eta {
        Some(x) => if x > MIN_POLL_DELAY_SECS {
            x as u32
        } else {
            FALLBACK_POLL_DELAY_SECS
        },
        None => FALLBACK_POLL_DELAY_SECS,
    }
}

/// The relative time of the first record of a board list, if any.
pub open spec fn spec_first_rel(s: Seq<Actual>) -> Option<i32> {
    if s.len() == 0 {
        None
    } else {
        Some(s[0].actual_relative_time)
    }
}

/// Mathematical state of one stop poller.
#[verifier::ext_equal]
pub ghost struct StopPollerModel {
    pub stop_id: Seq<char>,
    pub name: Option<Seq<char>>,
    pub prev_stop: Option<Seq<char>>,
    pub last_check: u64,
    pub last_departure_diff: Option<i32>,
}

/// Per-stop poller configuration and the observations of its last cycle.
/// The stop id, previous-stop link and position are fixed at creation.
pub struct StopPoller {
    stop_id: String,
    name: Option<String>,
    prev_stop: Option<String>,
    last_check: u64,
    last_departure_diff: Option<i32>,
}

impl View for StopPoller {
    type V = StopPollerModel;

    closed spec fn view(&self) -> StopPollerModel {
        StopPollerModel {
            stop_id: self.stop_id@,
            name: match self.name {
                Some(n) => Some(n@),
                None => None,
            },
            prev_stop: match self.prev_stop {
                Some(p) => Some(p@),
                None => None,
            },
            last_check: self.last_check,
            last_departure_diff: self.last_departure_diff,
        }
    }
}

/// What one poll cycle asks the rest of the system to do: when to poll
/// again, which fragments to address, and the derived crossing events.
pub struct StopCycleActions {
    pub delay: u32,
    pub start_fragment_id: String,
    pub end_fragment_id: Option<String>,
    pub stop_name: String,
    pub entries: Vec<FragmentEntryEvent>,
    pub leaves: Vec<FragmentLeaveEvent>,
}

/// Whether `evs` are exactly the crossing events derived from the
/// just-passed records `old_list` at time of day `now`: one per record, in
/// order, for that record's trip, `old_list[i].actual_relative_time` seconds
/// away from `now`.
pub open spec fn events_match(evs: Seq<(Seq<char>, u32)>, old_list: Seq<Actual>, now: u32) -> bool {
    &&& evs.len() == old_list.len()
    &&& forall|i: int|
        0 <= i < evs.len() ==> (#[trigger] evs[i]).0 == old_list[i].trip_id@ && evs[i].1
            == spec_time_plus_offset(now, old_list[i].actual_relative_time)
}

/// The fragment state after the entry events derived from `old_list` at
/// time of day `now`, delivered in order.
pub open spec fn feed_entries(m: FragmentModel, old_list: Seq<Actual>, now: u32) -> FragmentModel
    decreases old_list.len(),
{
    if old_list.len() == 0 {
        m
    } else {
        entry_step(
            feed_entries(m, old_list.drop_last(), now),
            old_list.last().trip_id@,
            spec_time_plus_offset(now, old_list.last().actual_relative_time),
        )
    }
}

/// The fragment state after the leave events derived from `old_list` at
/// time of day `now`, delivered in order.
pub open spec fn feed_leaves(m: FragmentModel, old_list: Seq<Actual>, now: u32) -> FragmentModel
    decreases old_list.len(),
{
    if old_list.len() == 0 {
        m
    } else {
        leave_step(
            feed_leaves(m, old_list.drop_last(), now),
            old_list.last().trip_id@,
            spec_time_plus_offset(now, old_list.last().actual_relative_time),
        )
    }
}

impl StopPoller {
    /// Creates the poller for one stop, fixed to its position in the line:
    /// `prev_stop` is the id of the preceding stop, absent for a line head.
    pub fn new(stop_id: String, prev_stop: Option<String>, now: u64) -> (p: StopPoller)
        ensures
            p@ == (StopPollerModel {
                stop_id: stop_id@,
                name: None,
                prev_stop: match prev_stop {
                    Some(s) => Some(s@),
                    None => None,
                },
                last_check: now,
                last_departure_diff: None,
            }),
    {
        StopPoller {
            stop_id: stop_id,
            name: None,
            prev_stop: prev_stop,
            last_check: now,
            last_departure_diff: None,
        }
    }

    /// The next poll delay for a board whose soonest upcoming departure is
    /// `eta` seconds away: never below the floor, and equal to `eta`
    /// whenever `eta` exceeds the floor.
    pub fn next_delay(eta: Option<i32>) -> (d: u32)
        ensures
            d == spec_next_delay(eta),
            d >= MIN_POLL_DELAY_SECS,
            match eta {
                Some(x) => x > MIN_POLL_DELAY_SECS ==> d == x,
                None => d == FALLBACK_POLL_DELAY_SECS,
            },
    {
        match eta {
            Some(x) => if x > 30 {
                x as u32
            } else {
                120
            },
            None => 120,
        }
    }

    /// Digests one departure board: remembers the stop's name and the first
    /// just-passed record's relative time, and derives the next delay, the
    /// two fragment ids to address, and one entry event (plus, when a
    /// previous stop exists, one leave event) per just-passed record, each
    /// `actual_relative_time` seconds away from `now`.
    pub fn process_board(&mut self, board: &Welcome, now: u32) -> (r: StopCycleActions)
        requires
            is_time_of_day(now),
        ensures
            final(self)@ == (StopPollerModel {
                name: Some(board.stop_name@),
                last_departure_diff: spec_first_rel(board.old@),
                ..old(self)@
            }),
            r.delay == spec_next_delay(spec_first_rel(board.actual@)),
            r.start_fragment_id@ == board.stop_short_name@,
            match r.end_fragment_id {
                Some(e) => old(self)@.prev_stop == Some(e@),
                None => old(self)@.prev_stop is None,
            },
            r.stop_name@ == board.stop_name@,
            events_match(
                r.entries@.map_values(|e: FragmentEntryEvent| (e.trip_id@, e.time)),
                board.old@,
                now,
            ),
            old(self)@.prev_stop is Some ==> events_match(
                r.leaves@.map_values(|e: FragmentLeaveEvent| (e.trip_id@, e.time)),
                board.old@,
                now,
            ),
            old(self)@.prev_stop is None ==> r.leaves@.len() == 0,
    {
        let eta = if board.actual.len() > 0 {
            Some(board.actual[0].actual_relative_time)
        } else {
            None
        };
        let delay = Self::next_delay(eta);
        self.last_departure_diff = if board.old.len() > 0 {
            Some(board.old[0].actual_relative_time)
        } else {
            None
        };
        self.name = Some(board.stop_name.clone());

        let mut entries: Vec<FragmentEntryEvent> = Vec::new();
        let n = board.old.len();
        let mut i: usize = 0;
        while i < n
            invariant
                n == board.old@.len(),
                i <= n,
                is_time_of_day(now),
                entries@.len() == i,
                forall|j: int|
                    0 <= j < i ==> (#[trigger] entries@[j]).trip_id@ == board.old@[j].trip_id@
                        && entries@[j].time == spec_time_plus_offset(
                        now,
                        board.old@[j].actual_relative_time,
                    ),
            decreases n - i,
        {
            let t = time_plus_offset(now, board.old[i].actual_relative_time);
            entries.push(FragmentEntryEvent { trip_id: board.old[i].trip_id.clone(), time: t });
            i += 1;
        }

        let end_fragment_id = match &self.prev_stop {
            Some(p) => Some(p.clone()),
            None => None,
        };
        let mut leaves: Vec<FragmentLeaveEvent> = Vec::new();
        if end_fragment_id.is_some() {
            let mut i2: usize = 0;
            while i2 < n
                invariant
                    n == board.old@.len(),
                    i2 <= n,
                    is_time_of_day(now),
                    leaves@.len() == i2,
                    forall|j: int|
                        0 <= j < i2 ==> (#[trigger] leaves@[j]).trip_id@ == board.old@[j].trip_id@
                            && leaves@[j].time == spec_time_plus_offset(
                            now,
                            board.old@[j].actual_relative_time,
                        ),
                decreases n - i2,
            {
                let t = time_plus_offset(now, board.old[i2].actual_relative_time);
                leaves.push(
                    FragmentLeaveEvent { trip_id: board.old[i2].trip_id.clone(), time: t },
                );
                i2 += 1;
            }
        }
        StopCycleActions {
            delay: delay,
            start_fragment_id: board.stop_short_name.clone(),
            end_fragment_id: end_fragment_id,
            stop_name: board.stop_name.clone(),
            entries: entries,
            leaves: leaves,
        }
    }
}

/// The registry after the start-fragment half of a cycle: the fragment for
/// the segment starting at this stop created if absent, renamed, and fed the
/// board's entry events.
pub open spec fn stop_cycle_partial(
    m: FragmentRegistryModel,
    board: Welcome,
    now: u32,
) -> FragmentRegistryModel {
    let (m1, h1) = get_or_create_step(m, board.stop_short_name@);
    let m2 = m1.with_fragment(
        h1 as int,
        (FragmentModel { start_name: board.stop_name@, ..m1.fragments[h1 as int] }),
    );
    m2.with_fragment(h1 as int, feed_entries(m2.fragments[h1 as int], board.old@, now))
}

/// The registry state after one full poll cycle at this stop: the start
/// fragment renamed and fed the board's entry events, then — when the stop
/// has a predecessor — that predecessor's fragment renamed and fed the leave
/// events, each fragment created first if it did not exist.
pub open spec fn stop_cycle_step(
    m: FragmentRegistryModel,
    prev: Option<Seq<char>>,
    board: Welcome,
    now: u32,
) -> FragmentRegistryModel {
    let m3 = stop_cycle_partial(m, board, now);
    match prev {
        None => m3,
        Some(pid) => {
            let (m4, h2) = get_or_create_step(m3, pid);
            let m5 = m4.with_fragment(
                h2 as int,
                (FragmentModel { stop_name: board.stop_name@, ..m4.fragments[h2 as int] }),
            );
            m5.with_fragment(h2 as int, feed_leaves(m5.fragments[h2 as int], board.old@, now))
        },
    }
}

/// Runs the computing part of one poll cycle against the registry: digests
/// the board with `process_board` and applies every derived action, in
/// order. Returns the delay until this stop's next poll.
pub fn apply_stop_cycle(
    registry: &mut RouteFragmentRegistry,
    poller: &mut StopPoller,
    board: &Welcome,
    now: u32,
) -> (delay: u32)
    requires
        old(registry).wf(),
        is_time_of_day(now),
    ensures
        final(registry).wf(),
        final(registry)@ == stop_cycle_step(old(registry)@, old(poller)@.prev_stop, *board, now),
        final(poller)@ == (StopPollerModel {
            name: Some(board.stop_name@),
            last_departure_diff: spec_first_rel(board.old@),
            ..old(poller)@
        }),
        delay == spec_next_delay(spec_first_rel(board.actual@)),
{
    let actions = poller.process_board(board, now);
    let h1 = registry.get_or_create(actions.start_fragment_id);
    registry.set_start_name(h1, actions.stop_name.clone());
    let ghost m2 = registry@;
    proof {
        assert(registry@.fragments =~= m2.fragments.update(
            h1 as int,
            feed_entries_events(m2.fragments[h1 as int], actions.entries@.take(0)),
        ));
    }
    let n = actions.entries.len();
    let mut i: usize = 0;
    while i < n
        invariant
            n == actions.entries@.len(),
            is_time_of_day(now),
            i <= n,
            registry.wf(),
            h1 < registry@.fragments.len(),
            h1 < m2.fragments.len(),
            registry@.index_of == m2.index_of,
            events_match(
                actions.entries@.map_values(|e: FragmentEntryEvent| (e.trip_id@, e.time)),
                board.old@,
                now,
            ),
            registry@.fragments == m2.fragments.update(
                h1 as int,
                feed_entries_events(
                    m2.fragments[h1 as int],
                    actions.entries@.take(i as int),
                ),
            ),
        decreases n - i,
    {
        let ev = &actions.entries[i];
        proof {
            let me = actions.entries@.map_values(|e: FragmentEntryEvent| (e.trip_id@, e.time));
            assert(me[i as int].1 == spec_time_plus_offset(
                now,
                board.old@[i as int].actual_relative_time,
            ));
            assert(is_time_of_day(ev.time));
        }
        registry.deliver_entry(h1, ev.trip_id.clone(), ev.time);
        proof {
            assert(actions.entries@.take(i + 1).drop_last() =~= actions.entries@.take(i as int));
            assert(actions.entries@.take(i + 1).last() == actions.entries@[i as int]);
            assert(registry@.fragments =~= m2.fragments.update(
                h1 as int,
                feed_entries_events(m2.fragments[h1 as int], actions.entries@.take(i + 1)),
            ));
        }
        i += 1;
    }
    proof {
        assert(actions.entries@.take(n as int) =~= actions.entries@);
        lemma_feed_entries_events_match(
            m2.fragments[h1 as int],
            actions.entries@,
            board.old@,
            now,
        );
        assert(registry@ =~= stop_cycle_partial(old(registry)@, *board, now));
    }
    match actions.end_fragment_id {
        None => actions.delay,
        Some(pid) => {
            let h2 = registry.get_or_create(pid);
            registry.set_stop_name(h2, actions.stop_name);
            let ghost m5 = registry@;
            proof {
                assert(registry@.fragments =~= m5.fragments.update(
                    h2 as int,
                    feed_leaves_events(m5.fragments[h2 as int], actions.leaves@.take(0)),
                ));
            }
            let n2 = actions.leaves.len();
            let mut i2: usize = 0;
            while i2 < n2
                invariant
                    n2 == actions.leaves@.len(),
                    is_time_of_day(now),
                    i2 <= n2,
                    registry.wf(),
                    h2 < registry@.fragments.len(),
                    h2 < m5.fragments.len(),
                    registry@.index_of == m5.index_of,
                    events_match(
                        actions.leaves@.map_values(|e: FragmentLeaveEvent| (e.trip_id@, e.time)),
                        board.old@,
                        now,
                    ),
                    registry@.fragments == m5.fragments.update(
                        h2 as int,
                        feed_leaves_events(
                            m5.fragments[h2 as int],
                            actions.leaves@.take(i2 as int),
                        ),
                    ),
                decreases n2 - i2,
            {
                let ev = &actions.leaves[i2];
                proof {
                    let me = actions.leaves@.map_values(
                        |e: FragmentLeaveEvent| (e.trip_id@, e.time),
                    );
                    assert(me[i2 as int].1 == spec_time_plus_offset(
                        now,
                        board.old@[i2 as int].actual_relative_time,
                    ));
                    assert(is_time_of_day(ev.time));
                }
                registry.deliver_leave(h2, ev.trip_id.clone(), ev.time);
                proof {
                    assert(actions.leaves@.take(i2 + 1).drop_last() =~= actions.leaves@.take(
                        i2 as int,
                    ));
                    assert(actions.leaves@.take(i2 + 1).last() == actions.leaves@[i2 as int]);
                    assert(registry@.fragments =~= m5.fragments.update(
                        h2 as int,
                        feed_leaves_events(m5.fragments[h2 as int], actions.leaves@.take(i2 + 1)),
                    ));
                }
                i2 += 1;
            }
            proof {
                assert(actions.leaves@.take(n2 as int) =~= actions.leaves@);
                lemma_feed_leaves_events_match(
                    m5.fragments[h2 as int],
                    actions.leaves@,
                    board.old@,
                    now,
                );
                assert(registry@ =~= stop_cycle_step(
                    old(registry)@,
                    old(poller)@.prev_stop,
                    *board,
                    now,
                ));
            }
            actions.delay
        },
    }
}

/// The fragment state after delivering already-derived entry events in
/// order.
pub open spec fn feed_entries_events(m: FragmentModel, evs: Seq<FragmentEntryEvent>) -> FragmentModel
    decreases evs.len(),
{
    if evs.len() == 0 {
        m
    } else {
        entry_step(feed_entries_events(m, evs.drop_last()), evs.last().trip_id@, evs.last().time)
    }
}

/// The fragment state after delivering already-derived leave events in
/// order.
pub open spec fn feed_leaves_events(m: FragmentModel, evs: Seq<FragmentLeaveEvent>) -> FragmentModel
    decreases evs.len(),
{
    if evs.len() == 0 {
        m
    } else {
        leave_step(feed_leaves_events(m, evs.drop_last()), evs.last().trip_id@, evs.last().time)
    }
}

proof fn lemma_feed_entries_events_match(
    m: FragmentModel,
    evs: Seq<FragmentEntryEvent>,
    old_list: Seq<Actual>,
    now: u32,
)
    requires
        events_match(evs.map_values(|e: FragmentEntryEvent| (e.trip_id@, e.time)), old_list, now),
    ensures
        feed_entries_events(m, evs) == feed_entries(m, old_list, now),
    decreases evs.len(),
{
    let me = evs.map_values(|e: FragmentEntryEvent| (e.trip_id@, e.time));
    if evs.len() > 0 {
        let med = evs.drop_last().map_values(|e: FragmentEntryEvent| (e.trip_id@, e.time));
        assert(med =~= me.drop_last());
        assert forall|i: int| 0 <= i < med.len() implies (#[trigger] med[i]).0
            == old_list.drop_last()[i].trip_id@ && med[i].1 == spec_time_plus_offset(
            now,
            old_list.drop_last()[i].actual_relative_time,
        ) by {
            assert(me[i].0 == old_list[i].trip_id@ && me[i].1 == spec_time_plus_offset(
                now,
                old_list[i].actual_relative_time,
            ));
        }
        lemma_feed_entries_events_match(m, evs.drop_last(), old_list.drop_last(), now);
        assert(me[evs.len() - 1].0 == old_list[old_list.len() - 1].trip_id@ && me[evs.len()
            - 1].1 == spec_time_plus_offset(
            now,
            old_list[old_list.len() - 1].actual_relative_time,
        ));
        assert(evs.last().trip_id@ == old_list.last().trip_id@);
        assert(evs.last().time == spec_time_plus_offset(
            now,
            old_list.last().actual_relative_time,
        ));
    }
}

proof fn lemma_feed_leaves_events_match(
    m: FragmentModel,
    evs: Seq<FragmentLeaveEvent>,
    old_list: Seq<Actual>,
    now: u32,
)
    requires
        events_match(evs.map_values(|e: FragmentLeaveEvent| (e.trip_id@, e.time)), old_list, now),
    ensures
        feed_leaves_events(m, evs) == feed_leaves(m, old_list, now),
    decreases evs.len(),
{
    let me = evs.map_values(|e: FragmentLeaveEvent| (e.trip_id@, e.time));
    if evs.len() > 0 {
        let med = evs.drop_last().map_values(|e: FragmentLeaveEvent| (e.trip_id@, e.time));
        assert(med =~= me.drop_last());
        assert forall|i: int| 0 <= i < med.len() implies (#[trigger] med[i]).0
            == old_list.drop_last()[i].trip_id@ && med[i].1 == spec_time_plus_offset(
            now,
            old_list.drop_last()[i].actual_relative_time,
        ) by {
            assert(me[i].0 == old_list[i].trip_id@ && me[i].1 == spec_time_plus_offset(
                now,
                old_list[i].actual_relative_time,
            ));
        }
        lemma_feed_leaves_events_match(m, evs.drop_last(), old_list.drop_last(), now);
        assert(me[evs.len() - 1].0 == old_list[old_list.len() - 1].trip_id@ && me[evs.len()
            - 1].1 == spec_time_plus_offset(
            now,
            old_list[old_list.len() - 1].actual_relative_time,
        ));
        assert(evs.last().trip_id@ == old_list.last().trip_id@);
        assert(evs.last().time == spec_time_plus_offset(
            now,
            old_list.last().actual_relative_time,
        ));
    }
}

} // verus!
