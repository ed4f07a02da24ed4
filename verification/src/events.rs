//! The bookkeeping of a test of asynchronous code: events that fire in an order the test lays
//! down, each possibly blocked by others and caused by others.
//!
//! An event that something caused must not still be blocked, and must have fired unless a
//! future waits for it; [`State::finalize`] finds the first event that breaks this.

use multimap::MultiMap;
use slab::Slab;
use vstd::prelude::*;

verus! {

#[verifier::external_type_specification]
#[verifier::external_body]
#[verifier::reject_recursive_types(T)]
pub struct ExSlab<T>(Slab<T>);

#[verifier::external_type_specification]
#[verifier::external_body]
#[verifier::reject_recursive_types(K)]
#[verifier::reject_recursive_types(V)]
#[verifier::reject_recursive_types(S)]
pub struct ExMultiMap<K, V, S>(MultiMap<K, V, S>);

/// What is known of one event: whether it fired, and whether a future waits for it.
#[derive(Clone, Copy, Debug, PartialEq, Eq, Structural)]
pub struct EventState {
    /// The event has fired.
    pub fired: bool,
    /// A future waits for the event.
    pub future: bool,
}

/// The event records that a slab holds, by key.
pub uninterp spec fn slab_events(s: Slab<EventState>) -> Map<usize, EventState>;

/// The values that a multimap of event keys holds under each key, in the order they were put
/// there.
pub uninterp spec fn multimap_edges(m: MultiMap<usize, usize>) -> Map<usize, Seq<usize>>;

/// No event records at all.
pub open spec fn no_events() -> Map<usize, EventState> {
    Map::empty()
}

/// No edges at all.
pub open spec fn no_edges() -> Map<usize, Seq<usize>> {
    Map::empty()
}

/// `Slab::new`: a slab that holds nothing.
#[verifier::external_body]
fn slab_new() -> (fresh: Slab<EventState>)
    ensures
        slab_events(fresh) == no_events(),
{
    Slab::new()
}

/// `Slab::insert`: stores `val` under a key that held nothing, and returns that key.
#[verifier::external_body]
fn slab_insert(s: &mut Slab<EventState>, val: EventState) -> (key: usize)
    requires
        slab_events(*old(s)).len() + 1 < usize::MAX,
    ensures
        !slab_events(*old(s)).contains_key(key),
        slab_events(*final(s)) == slab_events(*old(s)).insert(key, val),
{
    s.insert(val)
}

/// `Slab::get`: a copy of the record under `key`, if there is one.
#[verifier::external_body]
fn slab_get(s: &Slab<EventState>, key: usize) -> (r: Option<EventState>)
    ensures
        r == (if slab_events(*s).contains_key(key) {
            Some(slab_events(*s)[key])
        } else {
            None
        }),
{
    s.get(key).copied()
}

/// `Slab::get_mut`, writing `val` under `key`: says whether the key held a record.
#[verifier::external_body]
fn slab_set(s: &mut Slab<EventState>, key: usize, val: EventState) -> (was: bool)
    ensures
        was == slab_events(*old(s)).contains_key(key),
        was ==> slab_events(*final(s)) == slab_events(*old(s)).insert(key, val),
        !was ==> slab_events(*final(s)) == slab_events(*old(s)),
{
    match s.get_mut(key) {
        Some(slot) => {
            *slot = val;
            true
        },
        None => false,
    }
}

/// `Slab::iter`, keeping the keys: every key that holds a record, in increasing order.
#[verifier::external_body]
fn slab_keys(s: &Slab<EventState>) -> (keys: Vec<usize>)
    ensures
        forall|i: int, j: int| 0 <= i < j < keys@.len() ==> keys@[i] < keys@[j],
        forall|k: usize| keys@.contains(k) <==> slab_events(*s).contains_key(k),
{
    s.iter().map(|(k, _)| k).collect()
}

/// `MultiMap::new`: a multimap that holds nothing.
#[verifier::external_body]
fn multimap_new() -> (fresh: MultiMap<usize, usize>)
    ensures
        multimap_edges(fresh) == no_edges(),
{
    MultiMap::new()
}

/// `MultiMap::insert`: appends `v` to the values under `k`.
#[verifier::external_body]
fn multimap_insert(m: &mut MultiMap<usize, usize>, k: usize, v: usize)
    ensures
        multimap_edges(*final(m)) == multimap_edges(*old(m)).insert(
            k,
            if multimap_edges(*old(m)).contains_key(k) {
                multimap_edges(*old(m))[k].push(v)
            } else {
                seq![v]
            },
        ),
{
    m.insert(k, v)
}

/// `MultiMap::get_vec`: the values under `k`, if there are any.
#[verifier::external_body]
fn multimap_get_vec(m: &MultiMap<usize, usize>, k: usize) -> (r: Option<&Vec<usize>>)
    ensures
        r matches Some(v) ==> multimap_edges(*m).contains_key(k) && v@ == multimap_edges(*m)[k],
        r is None ==> !multimap_edges(*m).contains_key(k),
{
    m.get_vec(&k)
}

/// `MultiMap::contains_key`: whether any value is under `k`.
#[verifier::external_body]
fn multimap_contains_key(m: &MultiMap<usize, usize>, k: usize) -> (r: bool)
    ensures
        r == multimap_edges(*m).contains_key(k),
{
    m.contains_key(&k)
}

/// The values under `k` in `edges`, none if there are none.
pub open spec fn edges_of(edges: Map<usize, Seq<usize>>, k: usize) -> Seq<usize> {
    if edges.contains_key(k) {
        edges[k]
    } else {
        Seq::empty()
    }
}

/// `edges` with `v` appended to the values under `k`.
pub open spec fn edge_added(edges: Map<usize, Seq<usize>>, k: usize, v: usize) -> Map<
    usize,
    Seq<usize>,
> {
    edges.insert(k, edges_of(edges, k).push(v))
}

/// Every value in `edges` is a key of `events`.
pub open spec fn edges_known(edges: Map<usize, Seq<usize>>, events: Map<usize, EventState>) -> bool {
    forall|k: usize, i: int|
        edges.contains_key(k) && 0 <= i < edges[k].len() ==> events.contains_key(
            #[trigger] edges[k][i],
        )
}

/// An event that blocks `event` has not fired yet.
pub open spec fn is_blocked(
    blocked_by: Map<usize, Seq<usize>>,
    events: Map<usize, EventState>,
    event: usize,
) -> bool {
    exists|i: int|
        0 <= i < edges_of(blocked_by, event).len() && !events[#[trigger] edges_of(
            blocked_by,
            event,
        )[i]].fired
}

/// An event that causes `event` has fired.
pub open spec fn is_caused(
    caused_by: Map<usize, Seq<usize>>,
    events: Map<usize, EventState>,
    event: usize,
) -> bool {
    exists|i: int|
        0 <= i < edges_of(caused_by, event).len() && events[#[trigger] edges_of(
            caused_by,
            event,
        )[i]].fired
}

/// How an event breaks the rules of a finished test.
#[derive(Clone, Copy, Debug, PartialEq, Eq, Structural)]
pub enum Violation {
    /// Something caused the event, but it is still blocked.
    CausedButBlocked,
    /// Something caused the event, but it never fired and no future waits for it.
    CausedButNeverFired,
}

/// The events of a test and how they block and cause each other.
pub struct State {
    events: Slab<EventState>,
    blocks: MultiMap<usize, usize>,
    blocked_by: MultiMap<usize, usize>,
    causes: MultiMap<usize, usize>,
    caused_by: MultiMap<usize, usize>,
}

impl State {
    /// The events, by key.
    pub closed spec fn events(&self) -> Map<usize, EventState> {
        slab_events(self.events)
    }

    /// The events that each event blocks.
    pub closed spec fn blocks(&self) -> Map<usize, Seq<usize>> {
        multimap_edges(self.blocks)
    }

    /// The events that block each event.
    pub closed spec fn blocked_by(&self) -> Map<usize, Seq<usize>> {
        multimap_edges(self.blocked_by)
    }

    /// The events that each event causes.
    pub closed spec fn causes(&self) -> Map<usize, Seq<usize>> {
        multimap_edges(self.causes)
    }

    /// The events that cause each event.
    pub closed spec fn caused_by(&self) -> Map<usize, Seq<usize>> {
        multimap_edges(self.caused_by)
    }

    /// Every event that blocks or causes another is an event of the test.
    pub open spec fn wf(&self) -> bool {
        &&& edges_known(self.blocked_by(), self.events())
        &&& edges_known(self.caused_by(), self.events())
    }

    /// The rule `event` breaks in a finished test, if any.
    pub open spec fn violation(&self, event: usize) -> Option<Violation> {
        if !is_caused(self.caused_by(), self.events(), event) {
            None
        } else if is_blocked(self.blocked_by(), self.events(), event) {
            Some(Violation::CausedButBlocked)
        } else if !self.events()[event].future && !self.events()[event].fired {
            Some(Violation::CausedButNeverFired)
        } else {
            None
        }
    }

    /// A test without events.
    pub fn new() -> (s: Self)
        ensures
            s.events() == Map::<usize, EventState>::empty(),
            s.blocks() == Map::<usize, Seq<usize>>::empty(),
            s.blocked_by() == Map::<usize, Seq<usize>>::empty(),
            s.causes() == Map::<usize, Seq<usize>>::empty(),
            s.caused_by() == Map::<usize, Seq<usize>>::empty(),
            s.wf(),
    {
        State {
            events: slab_new(),
            blocks: multimap_new(),
            blocked_by: multimap_new(),
            causes: multimap_new(),
            caused_by: multimap_new(),
        }
    }

    /// Makes a new event that has not fired and that no future waits for, and returns its key.
    pub fn add_event(&mut self) -> (key: usize)
        requires
            old(self).wf(),
            old(self).events().len() + 1 < usize::MAX,
        ensures
            final(self).wf(),
            !old(self).events().contains_key(key),
            final(self).events() == old(self).events().insert(
                key,
                EventState { fired: false, future: false },
            ),
            final(self).blocks() == old(self).blocks(),
            final(self).blocked_by() == old(self).blocked_by(),
            final(self).causes() == old(self).causes(),
            final(self).caused_by() == old(self).caused_by(),
    {
        slab_insert(&mut self.events, EventState { fired: false, future: false })
    }

    /// Whether `event` has fired.
    pub fn completed(&self, event: usize) -> (r: bool)
        requires
            self.events().contains_key(event),
        ensures
            r == self.events()[event].fired,
    {
        slab_get(&self.events, event).unwrap().fired
    }

    /// Fires `event`, which has not fired yet.
    pub fn fire(&mut self, event: usize)
        requires
            old(self).wf(),
            old(self).events().contains_key(event),
            !old(self).events()[event].fired,
        ensures
            final(self).wf(),
            final(self).events() == old(self).events().insert(
                event,
                EventState { fired: true, future: old(self).events()[event].future },
            ),
            final(self).blocks() == old(self).blocks(),
            final(self).blocked_by() == old(self).blocked_by(),
            final(self).causes() == old(self).causes(),
            final(self).caused_by() == old(self).caused_by(),
    {
        let state = slab_get(&self.events, event).unwrap();
        slab_set(&mut self.events, event, EventState { fired: true, future: state.future });
    }

    /// Marks `event` as waited for by a future.
    pub fn set_future(&mut self, event: usize)
        requires
            old(self).wf(),
            old(self).events().contains_key(event),
        ensures
            final(self).wf(),
            final(self).events() == old(self).events().insert(
                event,
                EventState { fired: old(self).events()[event].fired, future: true },
            ),
            final(self).blocks() == old(self).blocks(),
            final(self).blocked_by() == old(self).blocked_by(),
            final(self).causes() == old(self).causes(),
            final(self).caused_by() == old(self).caused_by(),
    {
        let state = slab_get(&self.events, event).unwrap();
        slab_set(&mut self.events, event, EventState { fired: state.fired, future: true });
    }

    /// Records that `blocker` blocks `blocked`.
    pub fn add_block(&mut self, blocker: usize, blocked: usize)
        requires
            old(self).wf(),
            old(self).events().contains_key(blocker),
            old(self).events().contains_key(blocked),
        ensures
            final(self).wf(),
            final(self).events() == old(self).events(),
            final(self).blocks() == edge_added(old(self).blocks(), blocker, blocked),
            final(self).blocked_by() == edge_added(old(self).blocked_by(), blocked, blocker),
            final(self).causes() == old(self).causes(),
            final(self).caused_by() == old(self).caused_by(),
    {
        multimap_insert(&mut self.blocks, blocker, blocked);
        multimap_insert(&mut self.blocked_by, blocked, blocker);
        proof {
            let old_edges = old(self).blocked_by();
            let edges = self.blocked_by();
            assert forall|k: usize, i: int| edges.contains_key(k) && 0 <= i < edges[k].len() implies self.events().contains_key(
                #[trigger] edges[k][i],
            ) by {
                if k != blocked || i < edges_of(old_edges, blocked).len() {
                    assert(edges[k][i] == old_edges[k][i]);
                }
            }
        }
    }

    /// Records that `cause` causes `caused`.
    pub fn add_cause(&mut self, cause: usize, caused: usize)
        requires
            old(self).wf(),
            old(self).events().contains_key(cause),
            old(self).events().contains_key(caused),
        ensures
            final(self).wf(),
            final(self).events() == old(self).events(),
            final(self).blocks() == old(self).blocks(),
            final(self).blocked_by() == old(self).blocked_by(),
            final(self).causes() == edge_added(old(self).causes(), cause, caused),
            final(self).caused_by() == edge_added(old(self).caused_by(), caused, cause),
    {
        multimap_insert(&mut self.causes, cause, caused);
        multimap_insert(&mut self.caused_by, caused, cause);
        proof {
            let old_edges = old(self).caused_by();
            let edges = self.caused_by();
            assert forall|k: usize, i: int| edges.contains_key(k) && 0 <= i < edges[k].len() implies self.events().contains_key(
                #[trigger] edges[k][i],
            ) by {
                if k != caused || i < edges_of(old_edges, caused).len() {
                    assert(edges[k][i] == old_edges[k][i]);
                }
            }
        }
    }

    /// Whether nothing blocks or causes `event`, so that it may start the test.
    pub fn may_start(&self, event: usize) -> (r: bool)
        ensures
            r == (!self.blocked_by().contains_key(event) && !self.caused_by().contains_key(event)),
    {
        !multimap_contains_key(&self.blocked_by, event) && !multimap_contains_key(
            &self.caused_by,
            event,
        )
    }

    /// The events that block `event`, in the order they were recorded.
    pub fn blockers(&self, event: usize) -> (r: Vec<usize>)
        ensures
            r@ == edges_of(self.blocked_by(), event),
    {
        copy_edges(multimap_get_vec(&self.blocked_by, event))
    }

    /// The events that cause `event`, in the order they were recorded.
    pub fn causers(&self, event: usize) -> (r: Vec<usize>)
        ensures
            r@ == edges_of(self.caused_by(), event),
    {
        copy_edges(multimap_get_vec(&self.caused_by, event))
    }

    /// Whether an event that blocks `event` has not fired yet.
    pub fn blocked(&self, event: usize) -> (r: bool)
        requires
            self.wf(),
        ensures
            r == is_blocked(self.blocked_by(), self.events(), event),
    {
        let by = self.blockers(event);
        let ghost s = edges_of(self.blocked_by(), event);
        let mut i: usize = 0;
        while i < by.len()
            invariant
                self.wf(),
                by@ == s,
                s == edges_of(self.blocked_by(), event),
                i <= by@.len(),
                forall|j: int| 0 <= j < i ==> self.events()[#[trigger] s[j]].fired,
            decreases by@.len() - i,
        {
            proof {
                if self.blocked_by().contains_key(event) {
                    assert(self.events().contains_key(self.blocked_by()[event][i as int]));
                }
            }
            if !self.completed(by[i]) {
                return true;
            }
            i = i + 1;
        }
        false
    }

    /// Whether an event that causes `event` has fired.
    pub fn caused(&self, event: usize) -> (r: bool)
        requires
            self.wf(),
        ensures
            r == is_caused(self.caused_by(), self.events(), event),
    {
        let by = self.causers(event);
        let ghost s = edges_of(self.caused_by(), event);
        let mut i: usize = 0;
        while i < by.len()
            invariant
                self.wf(),
                by@ == s,
                s == edges_of(self.caused_by(), event),
                i <= by@.len(),
                forall|j: int| 0 <= j < i ==> !self.events()[#[trigger] s[j]].fired,
            decreases by@.len() - i,
        {
            proof {
                if self.caused_by().contains_key(event) {
                    assert(self.events().contains_key(self.caused_by()[event][i as int]));
                }
            }
            if self.completed(by[i]) {
                return true;
            }
            i = i + 1;
        }
        false
    }

    /// The first event, by key, that breaks the rules of a finished test, and how.
    pub fn finalize(&self) -> (r: Option<(usize, Violation)>)
        requires
            self.wf(),
        ensures
            r is None ==> forall|k: usize| #[trigger] self.events().contains_key(k) ==> self.violation(k) is None,
            r matches Some((id, v)) ==> {
                &&& self.events().contains_key(id)
                &&& self.violation(id) == Some(v)
                &&& forall|k: usize|
                    #[trigger] self.events().contains_key(k) && k < id ==> self.violation(k) is None
            },
    {
        let keys = slab_keys(&self.events);
        let mut i: usize = 0;
        while i < keys.len()
            invariant
                self.wf(),
                i <= keys@.len(),
                forall|a: int, b: int| 0 <= a < b < keys@.len() ==> keys@[a] < keys@[b],
                forall|k: usize| keys@.contains(k) <==> self.events().contains_key(k),
                forall|j: int| 0 <= j < i ==> self.violation(#[trigger] keys@[j]) is None,
            decreases keys@.len() - i,
        {
            let id = keys[i];
            proof {
                assert(keys@.contains(id));
            }
            if self.caused(id) {
                if self.blocked(id) {
                    proof {
                        self.lemma_earlier_fine(keys@, i as int);
                    }
                    return Some((id, Violation::CausedButBlocked));
                }
                let state = slab_get(&self.events, id).unwrap();
                if !state.future && !state.fired {
                    proof {
                        self.lemma_earlier_fine(keys@, i as int);
                    }
                    return Some((id, Violation::CausedButNeverFired));
                }
            }
            i = i + 1;
        }
        proof {
            assert forall|k: usize| #[trigger] self.events().contains_key(k) implies self.violation(k) is None by {
                assert(keys@.contains(k));
                let j = choose|j: int| 0 <= j < keys@.len() && keys@[j] == k;
                assert(self.violation(keys@[j]) is None);
            }
        }
        None
    }

    proof fn lemma_earlier_fine(&self, keys: Seq<usize>, i: int)
        requires
            0 <= i < keys.len(),
            forall|a: int, b: int| 0 <= a < b < keys.len() ==> keys[a] < keys[b],
            forall|k: usize| keys.contains(k) <==> self.events().contains_key(k),
            forall|j: int| 0 <= j < i ==> self.violation(#[trigger] keys[j]) is None,
        ensures
            forall|k: usize|
                #[trigger] self.events().contains_key(k) && k < keys[i] ==> self.violation(k) is None,
    {
        assert forall|k: usize| #[trigger] self.events().contains_key(k) && k < keys[i] implies self.violation(k) is None by {
            assert(keys.contains(k));
            let j = choose|j: int| 0 <= j < keys.len() && keys[j] == k;
            if j >= i {
                if j > i {
                    assert(keys[i] < keys[j]);
                }
            }
            assert(self.violation(keys[j]) is None);
        }
    }
}

/// A copy of the values a multimap holds under one key, none if it holds none.
fn copy_edges(v: Option<&Vec<usize>>) -> (r: Vec<usize>)
    ensures
        v matches Some(x) ==> r@ == x@,
        v is None ==> r@ == Seq::<usize>::empty(),
{
    let mut r: Vec<usize> = Vec::new();
    if let Some(x) = v {
        let mut i: usize = 0;
        while i < x.len()
            invariant
                i <= x@.len(),
                r@ == x@.take(i as int),
            decreases x@.len() - i,
        {
            r.push(x[i]);
            i = i + 1;
            proof {
                assert(r@ =~= x@.take(i as int));
            }
        }
        proof {
            assert(x@.take(i as int) =~= x@);
        }
    }
    r
}

} // verus!
