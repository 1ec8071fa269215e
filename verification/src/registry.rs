//! The event registry and its three operations: create, join, cancel.
//!
//! The registry is an explicitly owned object: a durable store of encoded
//! records plus the monotone counter that assigns identifiers. Each operation
//! is specified as a function of the registry's contents and its inputs, and
//! the laws of the registry — uniqueness of `(name, date)` pairs, identifier
//! assignment, the join guard, cancel correctness and the missing-event rule
//! — are stated and proved over those functions.

use vstd::prelude::*;

use crate::codec::{dec_event, decode_event, encode_event, lemma_event_round_trip};
use crate::event::{addresses_of, Event, EventModel, Participant};
use crate::store::{store_entries, store_get, store_insert, store_new, stored, EventStore};

verus! {

/// The closed set of failure outcomes; each failed call returns exactly one.
#[derive(Clone, Copy, Debug, PartialEq, Eq, Structural)]
pub enum EventError {
    /// No event is registered under the given identifier.
    NoSuchEvent,
    /// Reserved for future join validation failures; never returned today.
    JoinError,
    /// The participant to cancel does not appear in the event.
    CancelJoinError,
    /// The address already appears among the event's participants.
    AlreadyJoined,
    /// An event with the same name and date already exists.
    AlreadyExists,
}

/// Whether some event of `m` already carries this `(name, date)` pair.
pub open spec fn pair_taken(m: Map<u64, EventModel>, name: Seq<char>, date: Seq<char>) -> bool {
    exists|k: u64| #[trigger] m.dom().contains(k) && m[k].name == name && m[k].date == date
}

/// What `create_event` returns on a registry holding `m`.
pub open spec fn create_result(m: Map<u64, EventModel>, name: Seq<char>, date: Seq<char>) -> Result<
    (),
    EventError,
> {
    if pair_taken(m, name, date) {
        Err(EventError::AlreadyExists)
    } else {
        Ok(())
    }
}

/// A freshly created event: the given pair and no participants.
pub open spec fn created_event(name: Seq<char>, date: Seq<char>) -> EventModel {
    EventModel { name, date, participants: Seq::empty() }
}

/// The registry contents after `create_event` assigns identifier `id`.
pub open spec fn create_map(
    m: Map<u64, EventModel>,
    id: u64,
    name: Seq<char>,
    date: Seq<char>,
) -> Map<u64, EventModel> {
    if pair_taken(m, name, date) {
        m
    } else {
        m.insert(id, created_event(name, date))
    }
}

/// What `join_event` returns on a registry holding `m`.
pub open spec fn join_result(m: Map<u64, EventModel>, id: u64, addr: Seq<char>) -> Result<
    (),
    EventError,
> {
    if !m.dom().contains(id) {
        Err(EventError::NoSuchEvent)
    } else if m[id].participants.contains(addr) {
        Err(EventError::AlreadyJoined)
    } else {
        Ok(())
    }
}

/// An event after one more participant joined it.
pub open spec fn joined_event(e: EventModel, addr: Seq<char>) -> EventModel {
    EventModel { participants: e.participants.push(addr), ..e }
}

/// The registry contents after `join_event`.
pub open spec fn join_map(m: Map<u64, EventModel>, id: u64, addr: Seq<char>) -> Map<
    u64,
    EventModel,
> {
    if join_result(m, id, addr) is Ok {
        m.insert(id, joined_event(m[id], addr))
    } else {
        m
    }
}

/// What `cancel_joined_event` returns on a registry holding `m`.
pub open spec fn cancel_result(m: Map<u64, EventModel>, id: u64, addr: Seq<char>) -> Result<
    (),
    EventError,
> {
    if !m.dom().contains(id) {
        Err(EventError::NoSuchEvent)
    } else if !m[id].participants.contains(addr) {
        Err(EventError::CancelJoinError)
    } else {
        Ok(())
    }
}

/// An event after the first occurrence of `addr` was removed; the relative
/// order of the remaining participants is preserved.
pub open spec fn cancelled_event(e: EventModel, addr: Seq<char>) -> EventModel {
    EventModel {
        participants: e.participants.remove(e.participants.index_of_first(addr).unwrap()),
        ..e
    }
}

/// The registry contents after `cancel_joined_event`.
pub open spec fn cancel_map(m: Map<u64, EventModel>, id: u64, addr: Seq<char>) -> Map<
    u64,
    EventModel,
> {
    if cancel_result(m, id, addr) is Ok {
        m.insert(id, cancelled_event(m[id], addr))
    } else {
        m
    }
}

/// No address appears twice in one participant list.
pub open spec fn distinct_addresses(ps: Seq<Seq<char>>) -> bool {
    forall|i: int, j: int| 0 <= i < j < ps.len() ==> ps[i] != ps[j]
}

/// The registry's map invariant: participant lists are duplicate-free and no
/// two events share a `(name, date)` pair.
pub open spec fn registry_map_wf(m: Map<u64, EventModel>) -> bool {
    &&& forall|k: u64| #[trigger] m.dom().contains(k) ==> distinct_addresses(m[k].participants)
    &&& forall|k1: u64, k2: u64|
        m.dom().contains(k1) && m.dom().contains(k2) && k1 != k2 ==> !(#[trigger] m[k1].name
            == #[trigger] m[k2].name && m[k1].date == m[k2].date)
}

/// The persistent event registry.
pub struct Registry {
    store: EventStore,
    next_id: u64,
}

impl Registry {
    /// The registry's contents: the decoded record under each identifier.
    pub closed spec fn events(self) -> Map<u64, EventModel> {
        Map::new(
            |k: u64| stored(self.store).dom().contains(k),
            |k: u64| dec_event(stored(self.store)[k]).unwrap(),
        )
    }

    /// How many events were successfully created; also the next identifier.
    pub closed spec fn created(self) -> u64 {
        self.next_id
    }

    /// Well-formed: every stored record parses back, identifiers were
    /// assigned by the counter, and the map invariant holds.
    pub closed spec fn wf(self) -> bool {
        &&& stored(self.store).dom().finite()
        &&& stored(self.store).dom().len() == self.next_id
        &&& forall|k: u64| #[trigger] stored(self.store).dom().contains(k) ==> k < self.next_id
        &&& forall|k: u64|
            #[trigger] stored(self.store).dom().contains(k) ==> dec_event(stored(self.store)[k])
                is Some
        &&& registry_map_wf(self.events())
    }

    /// What always holds of a well-formed registry: the map invariant, and
    /// every identifier lies below the creation counter.
    pub proof fn lemma_wf(self)
        requires
            self.wf(),
        ensures
            registry_map_wf(self.events()),
            self.events().dom().finite(),
            self.events().dom().len() == self.created(),
            forall|k: u64| #[trigger] self.events().dom().contains(k) ==> k < self.created(),
    {
        assert(self.events().dom() =~= stored(self.store).dom());
    }

    /// A fresh, empty registry.
    pub fn new() -> (r: Registry)
        ensures
            r.wf(),
            r.events() == Map::<u64, EventModel>::empty(),
            r.created() == 0,
    {
        let store = store_new();
        let r = Registry { store, next_id: 0 };
        proof {
            assert(r.events() =~= Map::<u64, EventModel>::empty());
            assert(r.events().dom() =~= stored(r.store).dom());
        }
        r
    }

    /// Creates a new event with the given name and date and no participants,
    /// under the next free identifier. Fails with `AlreadyExists`, mutating
    /// nothing, exactly when some event already carries the same pair.
    pub fn create_event(&mut self, name: String, date: String) -> (r: Result<(), EventError>)
        requires
            old(self).wf(),
            old(self).created() < u64::MAX,
        ensures
            final(self).wf(),
            r == create_result(old(self).events(), name@, date@),
            final(self).events() == create_map(
                old(self).events(),
                old(self).created(),
                name@,
                date@,
            ),
            final(self).created() == if r is Ok {
                old(self).created() + 1
            } else {
                old(self).created() as int
            },
    {
        broadcast use vstd::set::group_set_axioms;

        let ghost m = old(self).events();
        proof {
            assert(m.dom() =~= stored(self.store).dom());
        }
        let entries = store_entries(&self.store);
        let n = entries.len();
        let mut i: usize = 0;
        while i < n
            invariant
                i <= n == entries@.len(),
                *self == *old(self),
                self.wf(),
                m == self.events(),
                m.dom() == stored(self.store).dom(),
                forall|j: int|
                    0 <= j < entries@.len() ==> stored(self.store).dom().contains(
                        #[trigger] entries@[j].0,
                    ) && stored(self.store)[entries@[j].0] == entries@[j].1@,
                forall|j: int|
                    0 <= j < i ==> !(m[#[trigger] entries@[j].0].name == name@
                        && m[entries@[j].0].date == date@),
            decreases n - i,
        {
            let ghost k = entries@[i as int].0;
            let ev = match decode_event(&entries[i].1) {
                Some(ev) => ev,
                None => {
                    proof {
                        assert(dec_event(stored(self.store)[k]) is Some);
                    }
                    vstd::pervasive::unreached()
                },
            };
            proof {
                assert(ev@ == m[k]);
            }
            if ev.name == name && ev.date == date {
                proof {
                    assert(m.dom().contains(k) && m[k].name == name@ && m[k].date == date@);
                    assert(pair_taken(m, name@, date@));
                }
                return Err(EventError::AlreadyExists);
            }
            i = i + 1;
        }
        proof {
            assert(!pair_taken(m, name@, date@)) by {
                if pair_taken(m, name@, date@) {
                    let k = choose|k: u64|
                        #[trigger] m.dom().contains(k) && m[k].name == name@ && m[k].date == date@;
                    let j = choose|j: int| 0 <= j < entries@.len() && entries@[j].0 == k;
                    assert(m[entries@[j].0].name == name@ && m[entries@[j].0].date == date@);
                }
            }
        }
        let ev = Event { name, date, participants: Vec::new() };
        let bytes = encode_event(&ev);
        let id = self.next_id;
        store_insert(&mut self.store, id, bytes);
        self.next_id = id + 1;
        proof {
            lemma_event_round_trip(ev@);
            assert(ev@ =~= created_event(name@, date@));
            assert(self.events() =~= m.insert(id, created_event(name@, date@)));
            assert(self.events().dom() =~= stored(self.store).dom());
            assert(stored(self.store).dom().len() == self.next_id);
            assert(distinct_addresses(created_event(name@, date@).participants));
            assert(registry_map_wf(self.events()));
        }
        Ok(())
    }

    /// Adds the participant to the event, keeping insertion order. Fails with
    /// `NoSuchEvent` when the identifier is unknown and with `AlreadyJoined`
    /// when the address is already among the event's participants; a failed
    /// call mutates nothing.
    pub fn join_event(&mut self, event_id: u64, participant_address: String) -> (r: Result<
        (),
        EventError,
    >)
        requires
            old(self).wf(),
        ensures
            final(self).wf(),
            r == join_result(old(self).events(), event_id, participant_address@),
            final(self).events() == join_map(old(self).events(), event_id, participant_address@),
            final(self).created() == old(self).created(),
    {
        let ghost m = old(self).events();
        proof {
            assert(m.dom() =~= stored(self.store).dom());
        }
        let bytes = match store_get(&self.store, event_id) {
            Some(b) => b,
            None => {
                return Err(EventError::NoSuchEvent);
            },
        };
        let mut ev = match decode_event(&bytes) {
            Some(ev) => ev,
            None => {
                proof {
                    assert(dec_event(stored(self.store)[event_id]) is Some);
                }
                vstd::pervasive::unreached()
            },
        };
        proof {
            assert(ev@ == m[event_id]);
        }
        let ghost ps = m[event_id].participants;
        let n = ev.participants.len();
        let mut i: usize = 0;
        while i < n
            invariant
                i <= n == ev.participants@.len(),
                *self == *old(self),
                self.wf(),
                m == self.events(),
                m.dom().contains(event_id),
                ev@ == m[event_id],
                ps == addresses_of(ev.participants@),
                forall|j: int| 0 <= j < i ==> ps[j] != participant_address@,
            decreases n - i,
        {
            let matches_addr = ev.participants[i].address == participant_address;
            proof {
                assert(ps[i as int] == ev.participants@[i as int]@);
            }
            if matches_addr {
                proof {
                    assert(ps.contains(participant_address@));
                }
                return Err(EventError::AlreadyJoined);
            }
            i = i + 1;
        }
        proof {
            assert(!ps.contains(participant_address@)) by {
                if ps.contains(participant_address@) {
                    let j = choose|j: int| 0 <= j < ps.len() && ps[j] == participant_address@;
                    assert(ps[j] != participant_address@);
                }
            }
        }
        ev.participants.push(Participant { address: participant_address });
        let new_bytes = encode_event(&ev);
        store_insert(&mut self.store, event_id, new_bytes);
        proof {
            lemma_event_round_trip(ev@);
            assert(ev@ =~= joined_event(m[event_id], participant_address@));
            assert(stored(self.store).dom() =~= m.dom());
            assert(self.events() =~= join_map(m, event_id, participant_address@));
            assert(distinct_addresses(ev@.participants)) by {
                assert(forall|j: int|
                    0 <= j < ps.len() ==> ev@.participants[j] == #[trigger] ps[j]);
                assert(ev@.participants[ps.len() as int] == participant_address@);
            }
            assert(registry_map_wf(self.events()));
        }
        Ok(())
    }

    /// Removes the first participant with the given address, keeping the
    /// relative order of the rest. Fails with `NoSuchEvent` when the
    /// identifier is unknown and with `CancelJoinError` when no participant
    /// matches; a failed call mutates nothing.
    pub fn cancel_joined_event(&mut self, event_id: u64, participant_address: String) -> (r: Result<
        (),
        EventError,
    >)
        requires
            old(self).wf(),
        ensures
            final(self).wf(),
            r == cancel_result(old(self).events(), event_id, participant_address@),
            final(self).events() == cancel_map(old(self).events(), event_id, participant_address@),
            final(self).created() == old(self).created(),
    {
        let ghost m = old(self).events();
        proof {
            assert(m.dom() =~= stored(self.store).dom());
        }
        let bytes = match store_get(&self.store, event_id) {
            Some(b) => b,
            None => {
                return Err(EventError::NoSuchEvent);
            },
        };
        let mut ev = match decode_event(&bytes) {
            Some(ev) => ev,
            None => {
                proof {
                    assert(dec_event(stored(self.store)[event_id]) is Some);
                }
                vstd::pervasive::unreached()
            },
        };
        proof {
            assert(ev@ == m[event_id]);
        }
        let ghost ps = m[event_id].participants;
        let n = ev.participants.len();
        let mut i: usize = 0;
        while i < n
            invariant
                i <= n == ev.participants@.len(),
                *self == *old(self),
                self.wf(),
                m == self.events(),
                m.dom().contains(event_id),
                ev@ == m[event_id],
                ps == addresses_of(ev.participants@),
                forall|j: int| 0 <= j < i ==> ps[j] != participant_address@,
            decreases n - i,
        {
            let matches_addr = ev.participants[i].address == participant_address;
            proof {
                assert(ps[i as int] == ev.participants@[i as int]@);
            }
            if matches_addr {
                proof {
                    assert(ps.contains(participant_address@));
                    ps.index_of_first_ensures(participant_address@);
                    let fi = ps.index_of_first(participant_address@).unwrap();
                    assert(fi == i) by {
                        if fi < i {
                            assert(ps[fi] != participant_address@);
                        }
                        if fi > i {
                            assert(ps[i as int] != participant_address@);
                        }
                    }
                }
                ev.participants.remove(i);
                proof {
                    assert(addresses_of(ev.participants@) =~= ps.remove(i as int));
                    assert(ev@ =~= cancelled_event(m[event_id], participant_address@));
                }
                let new_bytes = encode_event(&ev);
                store_insert(&mut self.store, event_id, new_bytes);
                proof {
                    lemma_event_round_trip(ev@);
                    assert(stored(self.store).dom() =~= m.dom());
                    assert(self.events() =~= cancel_map(m, event_id, participant_address@));
                    assert(distinct_addresses(ev@.participants)) by {
                        assert(distinct_addresses(ps));
                        assert(forall|a: int|
                            0 <= a < i ==> ev@.participants[a] == #[trigger] ps[a]);
                        assert(forall|a: int|
                            i <= a < ps.len() - 1 ==> ev@.participants[a] == #[trigger] ps[a + 1]);
                    }
                    assert(registry_map_wf(self.events()));
                }
                return Ok(());
            }
            i = i + 1;
        }
        proof {
            assert(!ps.contains(participant_address@)) by {
                if ps.contains(participant_address@) {
                    let j = choose|j: int| 0 <= j < ps.len() && ps[j] == participant_address@;
                    assert(ps[j] != participant_address@);
                }
            }
        }
        Err(EventError::CancelJoinError)
    }

    /// Looks an event up by its identifier; the read-only query.
    pub fn get_event(&self, event_id: u64) -> (r: Option<Event>)
        requires
            self.wf(),
        ensures
            match r {
                Some(ev) => self.events().dom().contains(event_id) && ev@
                    == self.events()[event_id],
                None => !self.events().dom().contains(event_id),
            },
    {
        proof {
            assert(self.events().dom() =~= stored(self.store).dom());
        }
        let bytes = match store_get(&self.store, event_id) {
            Some(b) => b,
            None => {
                return None;
            },
        };
        match decode_event(&bytes) {
            Some(ev) => Some(ev),
            None => {
                proof {
                    assert(dec_event(stored(self.store)[event_id]) is Some);
                }
                vstd::pervasive::unreached()
            },
        }
    }

    /// The number of events created so far; the next event takes this
    /// identifier.
    pub fn count(&self) -> (n: u64)
        ensures
            n == self.created(),
    {
        self.next_id
    }
}

/// Uniqueness: in a well-formed registry, no two events carry the same
/// `(name, date)` pair.
pub proof fn lemma_no_duplicate_pairs(reg: Registry, k1: u64, k2: u64)
    requires
        reg.wf(),
        reg.events().dom().contains(k1),
        reg.events().dom().contains(k2),
        k1 != k2,
    ensures
        !(reg.events()[k1].name == reg.events()[k2].name && reg.events()[k1].date
            == reg.events()[k2].date),
{
    reg.lemma_wf();
}

/// Uniqueness: once a creation with some pair succeeded, repeating it fails
/// with `AlreadyExists` and leaves the registry contents unchanged, whatever
/// identifier the repeat would have used.
pub proof fn lemma_create_duplicate_rejected(
    m: Map<u64, EventModel>,
    id1: u64,
    id2: u64,
    name: Seq<char>,
    date: Seq<char>,
)
    requires
        create_result(m, name, date) == Ok::<(), EventError>(()),
    ensures
        create_result(create_map(m, id1, name, date), name, date) == Err::<(), EventError>(
            EventError::AlreadyExists,
        ),
        create_map(create_map(m, id1, name, date), id2, name, date) == create_map(
            m,
            id1,
            name,
            date,
        ),
{
    let m1 = create_map(m, id1, name, date);
    assert(m1.dom().contains(id1) && m1[id1].name == name && m1[id1].date == date);
    assert(pair_taken(m1, name, date));
}

/// Join guard: after a successful join of `addr`, joining `addr` again fails
/// with `AlreadyJoined`, changes nothing, and the participant list holds
/// `addr` exactly once — at its end.
pub proof fn lemma_join_idempotent_guard(m: Map<u64, EventModel>, id: u64, addr: Seq<char>)
    requires
        join_result(m, id, addr) == Ok::<(), EventError>(()),
    ensures
        join_result(join_map(m, id, addr), id, addr) == Err::<(), EventError>(
            EventError::AlreadyJoined,
        ),
        join_map(join_map(m, id, addr), id, addr) == join_map(m, id, addr),
        ({
            let ps1 = join_map(m, id, addr)[id].participants;
            forall|i: int| 0 <= i < ps1.len() ==> (ps1[i] == addr <==> i == ps1.len() - 1)
        }),
{
    let ps = m[id].participants;
    let ps1 = join_map(m, id, addr)[id].participants;
    assert(ps1 == ps.push(addr));
    assert(ps1[ps1.len() - 1] == addr);
    assert(ps1.contains(addr));
    assert(forall|i: int| 0 <= i < ps.len() ==> #[trigger] ps1[i] == ps[i]);
    assert(forall|i: int|
        0 <= i < ps1.len() ==> (#[trigger] ps1[i] == addr <==> i == ps1.len() - 1)) by {
        assert(!ps.contains(addr));
        assert(forall|i: int| 0 <= i < ps.len() ==> #[trigger] ps[i] != addr);
    }
}

/// Cancel correctness: when `addr` appears in a duplicate-free participant
/// list, cancelling removes exactly its first occurrence and keeps the order
/// of the rest; cancelling again fails with `CancelJoinError` and changes
/// nothing.
pub proof fn lemma_cancel_removes_exactly_once(m: Map<u64, EventModel>, id: u64, addr: Seq<char>)
    requires
        registry_map_wf(m),
        m.dom().contains(id),
        m[id].participants.contains(addr),
    ensures
        cancel_result(m, id, addr) == Ok::<(), EventError>(()),
        ({
            let ps = m[id].participants;
            let i = ps.index_of_first(addr).unwrap();
            &&& 0 <= i < ps.len()
            &&& ps[i] == addr
            &&& forall|j: int| 0 <= j < i ==> ps[j] != addr
            &&& cancel_map(m, id, addr)[id].participants == ps.remove(i)
        }),
        cancel_result(cancel_map(m, id, addr), id, addr) == Err::<(), EventError>(
            EventError::CancelJoinError,
        ),
        cancel_map(cancel_map(m, id, addr), id, addr) == cancel_map(m, id, addr),
{
    let ps = m[id].participants;
    ps.index_of_first_ensures(addr);
    let i = ps.index_of_first(addr).unwrap();
    let ps1 = cancel_map(m, id, addr)[id].participants;
    assert(ps1 == ps.remove(i));
    assert(distinct_addresses(ps));
    assert(!ps1.contains(addr)) by {
        if ps1.contains(addr) {
            let j = choose|j: int| 0 <= j < ps1.len() && ps1[j] == addr;
            if j < i {
                assert(ps[j] == addr);
                assert(ps[j] != ps[i]);
            } else {
                assert(ps[j + 1] == addr);
                assert(ps[i] != ps[j + 1]);
            }
        }
    }
}

/// The identifiers below `c`, as a set.
pub open spec fn ids_below(c: u64) -> Set<u64> {
    Set::new(|k: u64| k < c)
}

proof fn lemma_ids_below_len(c: u64)
    ensures
        ids_below(c).finite(),
        ids_below(c).len() == c,
    decreases c,
{
    broadcast use vstd::set::group_set_axioms;

    if c == 0 {
        assert(ids_below(0) =~= Set::<u64>::empty());
    } else {
        lemma_ids_below_len((c - 1) as u64);
        assert(ids_below(c) =~= ids_below((c - 1) as u64).insert((c - 1) as u64));
    }
}

/// Identifier assignment: a well-formed registry holds exactly the events
/// with identifiers `0` up to (excluding) `created()` — with `create_event`
/// assigning identifier `created()` to each successful creation, the k-th
/// successfully created event stands under identifier k.
pub proof fn lemma_identifiers_are_sequential(reg: Registry)
    requires
        reg.wf(),
    ensures
        forall|k: u64| #[trigger] reg.events().dom().contains(k) <==> k < reg.created(),
{
    reg.lemma_wf();
    lemma_ids_below_len(reg.created());
    vstd::set_lib::lemma_subset_equality(reg.events().dom(), ids_below(reg.created()));
    assert(forall|k: u64| k < reg.created() ==> ids_below(reg.created()).contains(k));
}

/// Missing event: joining or cancelling against an unknown identifier fails
/// with `NoSuchEvent` and changes nothing.
pub proof fn lemma_missing_event(m: Map<u64, EventModel>, id: u64, addr: Seq<char>)
    requires
        !m.dom().contains(id),
    ensures
        join_result(m, id, addr) == Err::<(), EventError>(EventError::NoSuchEvent),
        join_map(m, id, addr) == m,
        cancel_result(m, id, addr) == Err::<(), EventError>(EventError::NoSuchEvent),
        cancel_map(m, id, addr) == m,
{
}

} // verus!
