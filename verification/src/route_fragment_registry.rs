//! Get-or-create directory of route fragments: one authoritative owner per
//! segment id, created lazily and never evicted.

use vstd::prelude::*;
use crate::clock::is_time_of_day;
use crate::directory::Directory;
use crate::route_fragment::{
    entry_outcome,
    entry_step,
    fresh_fragment,
    leave_outcome,
    leave_step,
    stats_match,
    FragmentModel,
    PairOutcome,
    RouteFragment,
    RouteFragmentStats,
};

verus! {

/// Mathematical state of the fragment registry: which segment id owns which
/// slot, and the fragments in slot order.
#[verifier::ext_equal]
pub ghost struct FragmentRegistryModel {
    pub index_of: Map<Seq<char>, usize>,
    pub fragments: Seq<FragmentModel>,
}

impl FragmentRegistryModel {
    /// Every bound id names a slot holding the fragment with that id, and
    /// every slot's id is bound back to that slot.
    pub open spec fn wf(self) -> bool {
        &&& forall|k: Seq<char>| #[trigger]
            self.index_of.contains_key(k) ==> self.index_of[k] < self.fragments.len()
                && self.fragments[self.index_of[k] as int].id == k
        &&& forall|i: int|
            0 <= i < self.fragments.len() ==> #[trigger] self.index_of.contains_key(
                self.fragments[i].id,
            ) && self.index_of[self.fragments[i].id] == i
    }

    /// The same registry with the fragment in slot `h` replaced.
    pub open spec fn with_fragment(self, h: int, f: FragmentModel) -> FragmentRegistryModel {
        FragmentRegistryModel { fragments: self.fragments.update(h, f), ..self }
    }
}

/// The registry state and handle that one get-or-create decision yields: the
/// existing slot for a known id, or a fresh fragment in a new slot.
pub open spec fn get_or_create_step(m: FragmentRegistryModel, id: Seq<char>) -> (
    FragmentRegistryModel,
    usize,
) {
    if m.index_of.contains_key(id) {
        (m, m.index_of[id])
    } else {
        (
            FragmentRegistryModel {
                index_of: m.index_of.insert(id, m.fragments.len() as usize),
                fragments: m.fragments.push(fresh_fragment(id)),
            },
            m.fragments.len() as usize,
        )
    }
}

/// The registry state after one get-or-create decision per listed id, in
/// order.
pub open spec fn get_or_create_all(
    m: FragmentRegistryModel,
    ids: Seq<Seq<char>>,
) -> FragmentRegistryModel
    decreases ids.len(),
{
    if ids.len() == 0 {
        m
    } else {
        get_or_create_step(get_or_create_all(m, ids.drop_last()), ids.last()).0
    }
}

proof fn lemma_update_keeps_model_wf(m0: FragmentRegistryModel, m1: FragmentRegistryModel, h: int)
    requires
        m0.wf(),
        0 <= h < m0.fragments.len(),
        m1.index_of == m0.index_of,
        m1.fragments == m0.fragments.update(h, m1.fragments[h]),
        m1.fragments[h].id == m0.fragments[h].id,
    ensures
        m1.wf(),
{
    assert forall|k: Seq<char>| #[trigger]
        m1.index_of.contains_key(k) implies m1.index_of[k] < m1.fragments.len()
        && m1.fragments[m1.index_of[k] as int].id == k by {
        assert(m0.index_of.contains_key(k));
        assert(m0.fragments[m0.index_of[k] as int].id == k);
    }
    assert forall|i: int| 0 <= i < m1.fragments.len() implies #[trigger] m1.index_of.contains_key(
        m1.fragments[i].id,
    ) && m1.index_of[m1.fragments[i].id] == i by {
        assert(m1.fragments[i].id == m0.fragments[i].id);
        assert(m0.index_of.contains_key(m0.fragments[i].id));
    }
}

/// Single authoritative directory from segment id to its route fragment.
/// All get-or-create decisions pass through one `&mut` owner, so at most one
/// fragment is ever constructed per id.
pub struct RouteFragmentRegistry {
    index_of: Directory<usize>,
    fragments: Vec<RouteFragment>,
}

impl View for RouteFragmentRegistry {
    type V = FragmentRegistryModel;

    closed spec fn view(&self) -> FragmentRegistryModel {
        FragmentRegistryModel {
            index_of: self.index_of@,
            fragments: self.fragments@.map_values(|f: RouteFragment| f@),
        }
    }
}

impl RouteFragmentRegistry {
    /// The registry's representation and model are well formed.
    pub closed spec fn wf(&self) -> bool {
        &&& self.index_of.wf()
        &&& forall|i: int| 0 <= i < self.fragments@.len() ==> (#[trigger] self.fragments@[i]).wf()
        &&& self@.wf()
    }

    /// Creates an empty registry.
    pub fn new() -> (r: RouteFragmentRegistry)
        ensures
            r.wf(),
            r@.index_of == Map::<Seq<char>, usize>::empty(),
            r@.fragments == Seq::<FragmentModel>::empty(),
    {
        let r = RouteFragmentRegistry { index_of: Directory::new(), fragments: Vec::new() };
        proof {
            assert(r@.fragments =~= Seq::<FragmentModel>::empty());
        }
        r
    }

    /// Returns the handle of the fragment owning `id`, constructing it in
    /// its initial state if this is the first request for `id`.
    pub fn get_or_create(&mut self, id: String) -> (h: usize)
        requires
            old(self).wf(),
        ensures
            final(self).wf(),
            (final(self)@, h) == get_or_create_step(old(self)@, id@),
            h < final(self)@.fragments.len(),
            final(self)@.fragments[h as int].id == id@,
            final(self)@.index_of.contains_key(id@),
            final(self)@.index_of[id@] == h,
    {
        match self.index_of.get(&id) {
            Some(i) => {
                proof {
                    assert((final(self)@, i) =~= get_or_create_step(old(self)@, id@));
                }
                i
            },
            None => {
                let h = self.fragments.len();
                self.fragments.push(RouteFragment::new(id.clone()));
                self.index_of.insert(id, h);
                proof {
                    assert(self@.fragments =~= old(self)@.fragments.push(
                        fresh_fragment(id@),
                    ));
                    assert((self@, h) =~= get_or_create_step(old(self)@, id@));
                    assert forall|i: int|
                        0 <= i < self@.fragments.len() implies #[trigger] self@.index_of.contains_key(
                        self@.fragments[i].id,
                    ) && self@.index_of[self@.fragments[i].id] == i by {
                        if i < old(self)@.fragments.len() {
                            assert(old(self)@.index_of.contains_key(old(self)@.fragments[i].id));
                        }
                    }
                }
                h
            },
        }
    }

    /// Delivers an entry observation to the fragment in slot `h`; no other
    /// slot changes.
    pub fn deliver_entry(&mut self, h: usize, trip_id: String, time: u32) -> (r: PairOutcome)
        requires
            old(self).wf(),
            h < old(self)@.fragments.len(),
            is_time_of_day(time),
        ensures
            final(self).wf(),
            final(self)@.index_of == old(self)@.index_of,
            final(self)@.fragments == old(self)@.fragments.update(
                h as int,
                entry_step(old(self)@.fragments[h as int], trip_id@, time),
            ),
            r == entry_outcome(old(self)@.fragments[h as int], trip_id@, time),
    {
        let f = &mut self.fragments[h];
        let r = f.handle_entry(trip_id, time);
        proof {
            assert(self@.fragments =~= old(self)@.fragments.update(
                h as int,
                entry_step(old(self)@.fragments[h as int], trip_id@, time),
            ));
            lemma_update_keeps_model_wf(old(self)@, self@, h as int);
        }
        r
    }

    /// Delivers a leave observation to the fragment in slot `h`; no other
    /// slot changes.
    pub fn deliver_leave(&mut self, h: usize, trip_id: String, time: u32) -> (r: PairOutcome)
        requires
            old(self).wf(),
            h < old(self)@.fragments.len(),
            is_time_of_day(time),
        ensures
            final(self).wf(),
            final(self)@.index_of == old(self)@.index_of,
            final(self)@.fragments == old(self)@.fragments.update(
                h as int,
                leave_step(old(self)@.fragments[h as int], trip_id@, time),
            ),
            r == leave_outcome(old(self)@.fragments[h as int], trip_id@, time),
    {
        let f = &mut self.fragments[h];
        let r = f.handle_leave(trip_id, time);
        proof {
            assert(self@.fragments =~= old(self)@.fragments.update(
                h as int,
                leave_step(old(self)@.fragments[h as int], trip_id@, time),
            ));
            lemma_update_keeps_model_wf(old(self)@, self@, h as int);
        }
        r
    }

    /// Sets the start-stop display name of the fragment in slot `h`.
    pub fn set_start_name(&mut self, h: usize, name: String)
        requires
            old(self).wf(),
            h < old(self)@.fragments.len(),
        ensures
            final(self).wf(),
            final(self)@.index_of == old(self)@.index_of,
            final(self)@.fragments == old(self)@.fragments.update(
                h as int,
                (FragmentModel { start_name: name@, ..old(self)@.fragments[h as int] }),
            ),
    {
        let f = &mut self.fragments[h];
        f.set_start_name(name);
        proof {
            assert(self@.fragments =~= old(self)@.fragments.update(
                h as int,
                (FragmentModel { start_name: name@, ..old(self)@.fragments[h as int] }),
            ));
            lemma_update_keeps_model_wf(old(self)@, self@, h as int);
        }
    }

    /// Sets the end-stop display name of the fragment in slot `h`.
    pub fn set_stop_name(&mut self, h: usize, name: String)
        requires
            old(self).wf(),
            h < old(self)@.fragments.len(),
        ensures
            final(self).wf(),
            final(self)@.index_of == old(self)@.index_of,
            final(self)@.fragments == old(self)@.fragments.update(
                h as int,
                (FragmentModel { stop_name: name@, ..old(self)@.fragments[h as int] }),
            ),
    {
        let f = &mut self.fragments[h];
        f.set_stop_name(name);
        proof {
            assert(self@.fragments =~= old(self)@.fragments.update(
                h as int,
                (FragmentModel { stop_name: name@, ..old(self)@.fragments[h as int] }),
            ));
            lemma_update_keeps_model_wf(old(self)@, self@, h as int);
        }
    }

    /// Reports the status snapshot of the fragment in slot `h`. Read-only.
    pub fn status_of(&self, h: usize, now: u32) -> (r: RouteFragmentStats)
        requires
            self.wf(),
            h < self@.fragments.len(),
        ensures
            stats_match(self@.fragments[h as int], now, r),
    {
        self.fragments[h].status(now)
    }

    /// Answers a get-or-create request; the serialised form of
    /// `get_or_create`.
    pub fn handle(&mut self, msg: GetRouteFragment) -> (h: usize)
        requires
            old(self).wf(),
        ensures
            final(self).wf(),
            (final(self)@, h) == get_or_create_step(old(self)@, msg@),
            h < final(self)@.fragments.len(),
            final(self)@.index_of.contains_key(msg@),
            final(self)@.index_of[msg@] == h,
    {
        self.get_or_create(msg.id)
    }

    /// Resolves each listed stop id to its fragment, creating absent ones,
    /// and reports one status snapshot per stop id, in order. The registry
    /// ends exactly as the listed get-or-create decisions leave it: no
    /// fragment is touched beyond lazy creation.
    pub fn collect_stats(&mut self, stop_ids: &Vec<String>, now: u32) -> (stats: Vec<
        RouteFragmentStats,
    >)
        requires
            old(self).wf(),
        ensures
            final(self).wf(),
            final(self)@ == get_or_create_all(
                old(self)@,
                stop_ids@.map_values(|s: String| s@),
            ),
            stats@.len() == stop_ids@.len(),
            forall|i: int|
                0 <= i < stats@.len() ==> final(self)@.index_of.contains_key(
                    (#[trigger] stop_ids@[i])@,
                ) && stats_match(
                    final(self)@.fragments[final(self)@.index_of[stop_ids@[i]@] as int],
                    now,
                    stats@[i],
                ),
    {
        let ghost idsv: Seq<Seq<char>> = stop_ids@.map_values(|s: String| s@);
        let mut stats: Vec<RouteFragmentStats> = Vec::new();
        let n = stop_ids.len();
        let mut i: usize = 0;
        while i < n
            invariant
                n == stop_ids@.len(),
                idsv == stop_ids@.map_values(|s: String| s@),
                i <= n,
                self.wf(),
                stats@.len() == i,
                self@ == get_or_create_all(old(self)@, idsv.take(i as int)),
                forall|j: int|
                    0 <= j < i ==> self@.index_of.contains_key((#[trigger] stop_ids@[j])@)
                        && self@.index_of[stop_ids@[j]@] < self@.fragments.len() && stats_match(
                        self@.fragments[self@.index_of[stop_ids@[j]@] as int],
                        now,
                        stats@[j],
                    ),
            decreases n - i,
        {
            let ghost prev = self@;
            let h = self.get_or_create(stop_ids[i].clone());
            let s = self.status_of(h, now);
            stats.push(s);
            proof {
                assert(idsv.take(i + 1).drop_last() =~= idsv.take(i as int));
                assert(idsv.take(i + 1).last() == idsv[i as int]);
                assert(idsv[i as int] == stop_ids@[i as int]@);
                assert(self@ == get_or_create_all(old(self)@, idsv.take(i + 1)));
                assert forall|j: int|
                    0 <= j < i + 1 implies self@.index_of.contains_key(
                    (#[trigger] stop_ids@[j])@,
                ) && self@.index_of[stop_ids@[j]@] < self@.fragments.len() && stats_match(
                    self@.fragments[self@.index_of[stop_ids@[j]@] as int],
                    now,
                    stats@[j],
                ) by {
                    if j < i {
                        assert(prev.index_of.contains_key(stop_ids@[j]@));
                        assert(self@.index_of[stop_ids@[j]@] == prev.index_of[stop_ids@[j]@]);
                        assert(self@.fragments[prev.index_of[stop_ids@[j]@] as int]
                            == prev.fragments[prev.index_of[stop_ids@[j]@] as int]);
                    }
                }
            }
            i += 1;
        }
        proof {
            assert(idsv.take(n as int) =~= idsv);
        }
        stats
    }
}

/// A request for the fragment owning one segment id.
pub struct GetRouteFragment {
    id: String,
}

impl View for GetRouteFragment {
    type V = Seq<char>;

    closed spec fn view(&self) -> Seq<char> {
        self.id@
    }
}

impl GetRouteFragment {
    /// Builds the request for one segment id.
    pub fn new(id: String) -> (r: GetRouteFragment)
        ensures
            r@ == id@,
    {
        GetRouteFragment { id: id }
    }
}

/// Two get-or-create decisions for the same id return the same handle, and
/// the second changes nothing: however many callers ask for one id, only the
/// first constructs a fragment, because every decision goes through the same
/// serialised step.
pub proof fn lemma_get_or_create_idempotent(m: FragmentRegistryModel, id: Seq<char>)
    ensures
        ({
            let (m1, h1) = get_or_create_step(m, id);
            let (m2, h2) = get_or_create_step(m1, id);
            &&& h1 == h2
            &&& m2 == m1
        }),
{
}

} // verus!
