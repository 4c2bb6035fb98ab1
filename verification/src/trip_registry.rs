//! Get-or-create directory of trip trackers: one authoritative owner per
//! trip id, created lazily and never evicted.

use vstd::prelude::*;
use crate::directory::Directory;
use crate::passage::{
    apply_trip_sync,
    fresh_trip,
    trip_apply_step,
    trip_sync_step,
    PassageWelcome,
    Trip,
    TripModel,
    TripSyncReport,
};
use crate::route_fragment_registry::RouteFragmentRegistry;

verus! {

/// Mathematical state of the trip registry: which trip id owns which slot,
/// and the trips in slot order.
#[verifier::ext_equal]
pub ghost struct TripRegistryModel {
    pub index_of: Map<Seq<char>, usize>,
    pub trips: Seq<TripModel>,
}

impl TripRegistryModel {
    /// Every bound id names a slot holding the trip with that id, and every
    /// slot's id is bound back to that slot.
    pub open spec fn wf(self) -> bool {
        &&& forall|k: Seq<char>| #[trigger]
            self.index_of.contains_key(k) ==> self.index_of[k] < self.trips.len()
                && self.trips[self.index_of[k] as int].id == k
        &&& forall|i: int|
            0 <= i < self.trips.len() ==> #[trigger] self.index_of.contains_key(self.trips[i].id)
                && self.index_of[self.trips[i].id] == i
    }

    /// The same registry with the trip in slot `h` replaced.
    pub open spec fn with_trip(self, h: int, t: TripModel) -> TripRegistryModel {
        TripRegistryModel { trips: self.trips.update(h, t), ..self }
    }
}

/// The registry state and handle that one register decision yields: the
/// existing slot for a known id, or a fresh trip in a new slot.
pub open spec fn register_trip_step(m: TripRegistryModel, id: Seq<char>) -> (
    TripRegistryModel,
    usize,
) {
    if m.index_of.contains_key(id) {
        (m, m.index_of[id])
    } else {
        (
            TripRegistryModel {
                index_of: m.index_of.insert(id, m.trips.len() as usize),
                trips: m.trips.push(fresh_trip(id)),
            },
            m.trips.len() as usize,
        )
    }
}

proof fn lemma_update_keeps_model_wf(m0: TripRegistryModel, m1: TripRegistryModel, h: int)
    requires
        m0.wf(),
        0 <= h < m0.trips.len(),
        m1.index_of == m0.index_of,
        m1.trips == m0.trips.update(h, m1.trips[h]),
        m1.trips[h].id == m0.trips[h].id,
    ensures
        m1.wf(),
{
    assert forall|k: Seq<char>| #[trigger]
        m1.index_of.contains_key(k) implies m1.index_of[k] < m1.trips.len()
        && m1.trips[m1.index_of[k] as int].id == k by {
        assert(m0.index_of.contains_key(k));
        assert(m0.trips[m0.index_of[k] as int].id == k);
    }
    assert forall|i: int| 0 <= i < m1.trips.len() implies #[trigger] m1.index_of.contains_key(
        m1.trips[i].id,
    ) && m1.index_of[m1.trips[i].id] == i by {
        assert(m1.trips[i].id == m0.trips[i].id);
        assert(m0.index_of.contains_key(m0.trips[i].id));
    }
}

/// Single authoritative directory from trip id to its tracker. All register
/// decisions pass through one `&mut` owner, so at most one tracker is ever
/// constructed per id.
pub struct TripRegistry {
    index_of: Directory<usize>,
    trips: Vec<Trip>,
}

impl View for TripRegistry {
    type V = TripRegistryModel;

    closed spec fn view(&self) -> TripRegistryModel {
        TripRegistryModel {
            index_of: self.index_of@,
            trips: self.trips@.map_values(|t: Trip| t@),
        }
    }
}

/// A request to register (or look up) one trip id.
pub struct RegisterTrip {
    id: String,
}

impl View for RegisterTrip {
    type V = Seq<char>;

    closed spec fn view(&self) -> Seq<char> {
        self.id@
    }
}

impl RegisterTrip {
    /// Builds the request for one trip id.
    pub fn new(id: String) -> (r: RegisterTrip)
        ensures
            r@ == id@,
    {
        RegisterTrip { id: id }
    }
}

impl TripRegistry {
    /// The registry's representation and model are well formed.
    pub closed spec fn wf(&self) -> bool {
        &&& self.index_of.wf()
        &&& self@.wf()
    }

    /// Creates an empty registry.
    pub fn new() -> (r: TripRegistry)
        ensures
            r.wf(),
            r@.index_of == Map::<Seq<char>, usize>::empty(),
            r@.trips == Seq::<TripModel>::empty(),
    {
        let r = TripRegistry { index_of: Directory::new(), trips: Vec::new() };
        proof {
            assert(r@.trips =~= Seq::<TripModel>::empty());
        }
        r
    }

    /// Returns the handle of the tracker owning `id`, constructing it in
    /// its initial state if this is the first request for `id`.
    pub fn get_or_create(&mut self, id: String) -> (h: usize)
        requires
            old(self).wf(),
        ensures
            final(self).wf(),
            (final(self)@, h) == register_trip_step(old(self)@, id@),
            h < final(self)@.trips.len(),
            final(self)@.trips[h as int].id == id@,
            final(self)@.index_of.contains_key(id@),
            final(self)@.index_of[id@] == h,
    {
        match self.index_of.get(&id) {
            Some(i) => {
                proof {
                    assert((final(self)@, i) =~= register_trip_step(old(self)@, id@));
                }
                i
            },
            None => {
                let h = self.trips.len();
                self.trips.push(Trip::new(id.clone()));
                self.index_of.insert(id, h);
                proof {
                    assert(self@.trips =~= old(self)@.trips.push(fresh_trip(id@)));
                    assert((self@, h) =~= register_trip_step(old(self)@, id@));
                    assert forall|i: int|
                        0 <= i < self@.trips.len() implies #[trigger] self@.index_of.contains_key(
                        self@.trips[i].id,
                    ) && self@.index_of[self@.trips[i].id] == i by {
                        if i < old(self)@.trips.len() {
                            assert(old(self)@.index_of.contains_key(old(self)@.trips[i].id));
                        }
                    }
                }
                h
            },
        }
    }

    /// Answers a register request; the serialised form of `get_or_create`.
    pub fn handle(&mut self, msg: RegisterTrip) -> (h: usize)
        requires
            old(self).wf(),
        ensures
            final(self).wf(),
            (final(self)@, h) == register_trip_step(old(self)@, msg@),
            h < final(self)@.trips.len(),
            final(self)@.index_of.contains_key(msg@),
            final(self)@.index_of[msg@] == h,
    {
        self.get_or_create(msg.id)
    }

    /// Digests a trip-detail response with the tracker in slot `h` and
    /// delivers the derived crossing events to their route fragments.
    pub fn sync_at(
        &mut self,
        h: usize,
        fragments: &mut RouteFragmentRegistry,
        p: &PassageWelcome,
        now: u64,
    ) -> (r: TripSyncReport)
        requires
            old(self).wf(),
            h < old(self)@.trips.len(),
            old(fragments).wf(),
        ensures
            final(self).wf(),
            final(fragments).wf(),
            final(self)@.index_of == old(self)@.index_of,
            final(self)@.trips == old(self)@.trips.update(
                h as int,
                trip_sync_step(old(self)@.trips[h as int], *p, now).state,
            ),
            final(fragments)@ == trip_apply_step(
                old(fragments)@,
                trip_sync_step(old(self)@.trips[h as int], *p, now),
            ),
            r.entry_error == trip_sync_step(old(self)@.trips[h as int], *p, now).entry_error,
            r.leave_error == trip_sync_step(old(self)@.trips[h as int], *p, now).leave_error,
    {
        let t = &mut self.trips[h];
        let r = apply_trip_sync(fragments, t, p, now);
        proof {
            assert(self@.trips =~= old(self)@.trips.update(
                h as int,
                trip_sync_step(old(self)@.trips[h as int], *p, now).state,
            ));
            lemma_update_keeps_model_wf(old(self)@, self@, h as int);
        }
        r
    }
}

} // verus!
