//! Undo events: what each one changed, the events still open, and the undo
//! and redo stacks.
use vstd::prelude::*;
use ccl::dhashmap::DHashMap;
use std::collections::{HashSet, VecDeque};
use crate::data_object::{DBError, DataObject, ObjectView};
use crate::ids::{RefID, UserID, UndoEventID};
use super::database::{FileDatabase, undo_changes, keys_are_ids};
use crate::text::{decimal, push_decimal, uuid_text, push_uuid};

verus! {

/// One change that an undo event recorded, holding what is needed to revert
/// it: the key of an added object, or the object as it was before it was
/// modified or deleted.
pub enum Change {
    Add { key: RefID },
    Modify { obj: DataObject },
    Delete { obj: DataObject },
}

/// A recorded change, mathematically.
pub enum ChangeView {
    Add { key: RefID },
    Modify { obj: ObjectView },
    Delete { obj: ObjectView },
}

impl View for Change {
    type V = ChangeView;

    open spec fn view(&self) -> ChangeView {
        match self {
            Change::Add { key } => ChangeView::Add { key: *key },
            Change::Modify { obj } => ChangeView::Modify { obj: obj@ },
            Change::Delete { obj } => ChangeView::Delete { obj: obj@ },
        }
    }
}

/// The key of the object that a change concerns.
pub open spec fn change_key(c: ChangeView) -> RefID {
    match c {
        ChangeView::Add { key } => key,
        ChangeView::Modify { obj } => obj.id,
        ChangeView::Delete { obj } => obj.id,
    }
}

/// A group of changes that one user made and that is undone as a whole.
pub struct UndoEvent {
    pub event_id: UndoEventID,
    pub user_id: UserID,
    pub changes: Vec<Change>,
    pub timestamp: u128,
    pub desc: String,
    pub nested: usize,
    pub suspended: usize,
}

/// An undo event, mathematically.
pub struct EventView {
    pub event_id: UndoEventID,
    pub user_id: UserID,
    pub changes: Seq<ChangeView>,
    pub timestamp: u128,
    pub desc: Seq<char>,
    pub nested: usize,
    pub suspended: usize,
}

impl View for UndoEvent {
    type V = EventView;

    open spec fn view(&self) -> EventView {
        EventView {
            event_id: self.event_id,
            user_id: self.user_id,
            changes: self.changes@.map_values(|c: Change| c@),
            timestamp: self.timestamp,
            desc: self.desc@,
            nested: self.nested,
            suspended: self.suspended,
        }
    }
}

/// The time since the Unix epoch in milliseconds, from
/// `std::time::UNIX_EPOCH.elapsed()`.
///
/// Trusted, with nothing stated of the result: it reads the system clock. A
/// clock set before the epoch gives 0.
#[verifier::external_body]
pub fn get_time() -> (r: u128) {
    std::time::UNIX_EPOCH.elapsed().map(|d| d.as_millis()).unwrap_or(0)
}

impl Change {
    /// A copy of the change.
    pub fn duplicate(&self) -> (r: Change)
        ensures
            r@ == self@,
    {
        match self {
            Change::Add { key } => Change::Add { key: *key },
            Change::Modify { obj } => Change::Modify { obj: obj.duplicate() },
            Change::Delete { obj } => Change::Delete { obj: obj.duplicate() },
        }
    }
}

/// The keys of the objects that the changes concern.
pub open spec fn changed_keys(cs: Seq<ChangeView>) -> Set<RefID> {
    cs.map_values(|c: ChangeView| change_key(c)).to_set()
}

impl UndoEvent {
    /// A new event of `user`, with no change recorded yet, stamped with the
    /// current time.
    pub fn new(user: UserID, event_id: UndoEventID, desc: String) -> (r: UndoEvent)
        ensures
            r@ == (EventView {
                event_id,
                user_id: user,
                changes: Seq::empty(),
                timestamp: r@.timestamp,
                desc: desc@,
                nested: 0,
                suspended: 0,
            }),
    {
        let r = UndoEvent {
            event_id,
            user_id: user,
            changes: Vec::new(),
            timestamp: get_time(),
            desc,
            nested: 0,
            suspended: 0,
        };
        proof {
            assert(r@.changes =~= Seq::<ChangeView>::empty());
        }
        r
    }

    /// A copy of the event.
    pub fn duplicate(&self) -> (r: UndoEvent)
        ensures
            r@ == self@,
    {
        let mut changes: Vec<Change> = Vec::new();
        let mut i: usize = 0;
        while i < self.changes.len()
            invariant
                i <= self.changes@.len(),
                changes@.len() == i,
                forall|j: int| 0 <= j < i ==> #[trigger] changes@[j]@ == self.changes@[j]@,
            decreases self.changes@.len() - i,
        {
            let c = self.changes[i].duplicate();
            changes.push(c);
            i += 1;
        }
        proof {
            assert(changes@.map_values(|c: Change| c@) =~= self.changes@.map_values(|c: Change| c@));
        }
        UndoEvent {
            event_id: self.event_id,
            user_id: self.user_id,
            changes,
            timestamp: self.timestamp,
            desc: self.desc.clone(),
            nested: self.nested,
            suspended: self.suspended,
        }
    }

    /// The keys of the objects that the event changed.
    pub fn get_changed_objects(&self) -> (r: HashSet<RefID>)
        ensures
            r@ == changed_keys(self@.changes),
    {
        broadcast use vstd::std_specs::hash::group_hash_axioms;
        let mut results: HashSet<RefID> = HashSet::new();
        let ghost cs = self@.changes;
        for i in 0..self.changes.len()
            invariant
                cs == self@.changes,
                results@ == cs.take(i as int).map_values(|c: ChangeView| change_key(c)).to_set(),
        {
            let key = match &self.changes[i] {
                Change::Add { key } => *key,
                Change::Modify { obj } => obj.id,
                Change::Delete { obj } => obj.id,
            };
            proof {
                assert(change_key(cs[i as int]) == key);
                assert(cs.take(i + 1).map_values(|c: ChangeView| change_key(c)) =~= cs.take(i as int).map_values(
                    |c: ChangeView| change_key(c),
                ).push(key));
                lemma_push_to_set(cs.take(i as int).map_values(|c: ChangeView| change_key(c)), key);
            }
            results.insert(key);
        }
        proof {
            assert(cs.take(cs.len() as int) =~= cs);
        }
        results
    }
}

proof fn lemma_push_to_set(s: Seq<RefID>, x: RefID)
    ensures
        s.push(x).to_set() == s.to_set().insert(x),
{
    assert(s.push(x).to_set() =~= s.to_set().insert(x)) by {
        assert forall|y: RefID| s.push(x).to_set().contains(y) <==> s.to_set().insert(x).contains(y) by {
            if s.push(x).contains(y) && y != x {
                let i = choose|i: int| 0 <= i < s.push(x).len() && #[trigger] s.push(x)[i] == y;
                assert(s[i] == y);
            }
            if s.contains(y) {
                let i = choose|i: int| 0 <= i < s.len() && #[trigger] s[i] == y;
                assert(s.push(x)[i] == y);
            }
            if y == x {
                assert(s.push(x)[s.len() as int] == y);
            }
        }
    }
}

/// The index of the latest event of `user` in the stack, or -1 where the
/// user has none.
pub open spec fn latest_index(s: Seq<EventView>, user: UserID) -> int
    decreases s.len(),
{
    if s.len() == 0 {
        -1
    } else if s.last().user_id == user {
        s.len() - 1
    } else {
        latest_index(s.drop_last(), user)
    }
}

/// Bounds and meaning of `latest_index`.
pub proof fn lemma_latest_index(s: Seq<EventView>, user: UserID)
    ensures
        -1 <= latest_index(s, user) < s.len(),
        latest_index(s, user) >= 0 ==> s[latest_index(s, user)].user_id == user,
        forall|j: int| latest_index(s, user) < j < s.len() ==> #[trigger] s[j].user_id != user,
    decreases s.len(),
{
    if s.len() > 0 && s.last().user_id != user {
        lemma_latest_index(s.drop_last(), user);
        assert forall|j: int| latest_index(s, user) < j < s.len() implies #[trigger] s[j].user_id != user by {
            if j < s.len() - 1 {
                assert(s[j] == s.drop_last()[j]);
            }
        }
    }
}

/// The events that were ended, oldest first, and the events that were
/// undone, oldest first.
pub struct UndoStack {
    stack: VecDeque<UndoEvent>,
    redo_stack: VecDeque<UndoEvent>,
}

/// The undo and redo stacks, mathematically.
pub struct StackView {
    pub stack: Seq<EventView>,
    pub redo_stack: Seq<EventView>,
}

impl View for UndoStack {
    type V = StackView;

    closed spec fn view(&self) -> StackView {
        StackView {
            stack: self.stack@.map_values(|e: UndoEvent| e@),
            redo_stack: self.redo_stack@.map_values(|e: UndoEvent| e@),
        }
    }
}

/// The line that the state dump gives an event: its identifier and its
/// user as UUIDs, its description and the number of its changes.
pub open spec fn event_text(e: EventView) -> Seq<char> {
    uuid_text(e.event_id) + " by "@ + uuid_text(e.user_id) + ": "@ + e.desc + ", "@ + decimal(e.changes.len())
        + " changes\n"@
}

/// The lines of the events, in order.
pub open spec fn events_text(es: Seq<EventView>) -> Seq<char>
    decreases es.len(),
{
    if es.len() == 0 {
        Seq::empty()
    } else {
        events_text(es.drop_last()) + event_text(es.last())
    }
}

/// Appends the line of the event.
fn push_event_text(output: &mut String, e: &UndoEvent)
    ensures
        final(output)@ == old(output)@ + event_text(e@),
{
    push_uuid(output, e.event_id);
    output.append(" by ");
    push_uuid(output, e.user_id);
    output.append(": ");
    output.append(e.desc.as_str());
    output.append(", ");
    push_decimal(output, e.changes.len() as u128);
    output.append(" changes\n");
    proof {
        assert(output@ =~= old(output)@ + event_text(e@));
    }
}

/// Appends the lines of the events of the queue, oldest first.
fn push_events_text(output: &mut String, events: &VecDeque<UndoEvent>)
    ensures
        final(output)@ == old(output)@ + events_text(events@.map_values(|e: UndoEvent| e@)),
{
    let ghost es = events@.map_values(|e: UndoEvent| e@);
    let mut i: usize = 0;
    proof {
        assert(es.take(0) =~= Seq::<EventView>::empty());
        assert(old(output)@ + events_text(es.take(0)) =~= old(output)@);
    }
    while i < events.len()
        invariant
            es == events@.map_values(|e: UndoEvent| e@),
            i <= es.len(),
            output@ == old(output)@ + events_text(es.take(i as int)),
        decreases es.len() - i,
    {
        proof {
            assert(es.take(i + 1).drop_last() =~= es.take(i as int));
            assert(es.take(i + 1).last() == events@[i as int]@);
        }
        push_event_text(output, &events[i]);
        proof {
            assert(output@ =~= old(output)@ + events_text(es.take(i + 1)));
        }
        i += 1;
    }
    proof {
        assert(es.take(es.len() as int) =~= es);
    }
}

impl UndoStack {
    /// Appends the undo stack and then the redo stack, one line per event,
    /// oldest first.
    pub fn debug_state(&self, output: &mut String)
        ensures
            final(output)@ == old(output)@ + "Undo Stack:\n"@ + events_text(self@.stack) + "Redo Stack:\n"@
                + events_text(self@.redo_stack),
    {
        output.append("Undo Stack:\n");
        push_events_text(output, &self.stack);
        output.append("Redo Stack:\n");
        push_events_text(output, &self.redo_stack);
        proof {
            assert(output@ =~= old(output)@ + "Undo Stack:\n"@ + events_text(self@.stack) + "Redo Stack:\n"@
                + events_text(self@.redo_stack));
        }
    }
}

impl UndoStack {
    /// Empty undo and redo stacks.
    pub fn new() -> (r: UndoStack)
        ensures
            r@.stack == Seq::<EventView>::empty(),
            r@.redo_stack == Seq::<EventView>::empty(),
    {
        let r = UndoStack { stack: VecDeque::new(), redo_stack: VecDeque::new() };
        proof {
            assert(r@.stack =~= Seq::<EventView>::empty());
            assert(r@.redo_stack =~= Seq::<EventView>::empty());
        }
        r
    }

    /// Puts an ended event on top of the undo stack.
    pub fn push_event(&mut self, event: UndoEvent)
        ensures
            final(self)@.stack == old(self)@.stack.push(event@),
            final(self)@.redo_stack == old(self)@.redo_stack,
    {
        self.stack.push_back(event);
        proof {
            assert(self@.stack =~= old(self)@.stack.push(event@));
        }
    }

    /// Undoes the latest event of `user` on the undo stack: the event leaves
    /// the stack, its changes are reverted in `db`, and the event that redoes
    /// them goes on top of the redo stack. The result is the set of objects
    /// that changed. A user with no event is `NoUndoEvent`; a revert that
    /// fails is `NotFound`, the event being gone and the changes reverted so
    /// far staying in place.
    pub fn undo_latest(&mut self, user_id: UserID, db: &mut FileDatabase) -> (r: Result<HashSet<RefID>, DBError>)
        requires
            old(db).wf(),
        ensures
            final(db).wf(),
            latest_index(old(self)@.stack, user_id) < 0 ==> {
                &&& r matches Err(DBError::NoUndoEvent)
                &&& final(self)@ == old(self)@
                &&& final(db)@ == old(db)@
            },
            latest_index(old(self)@.stack, user_id) >= 0 ==> ({
                let idx = latest_index(old(self)@.stack, user_id);
                let e = old(self)@.stack[idx];
                let u = undo_changes(old(db)@, e.changes);
                &&& final(self)@.stack == old(self)@.stack.remove(idx)
                &&& final(db)@ == u.0
                &&& u.2 ==> {
                    &&& final(self)@.redo_stack == old(self)@.redo_stack.push(EventView { changes: u.1, ..e })
                    &&& r matches Ok(objs) && objs@ == changed_keys(u.1)
                }
                &&& !u.2 ==> {
                    &&& final(self)@.redo_stack == old(self)@.redo_stack
                    &&& r matches Err(DBError::NotFound(_))
                }
            }),
    {
        proof {
            lemma_latest_index(self@.stack, user_id);
        }
        let n = self.stack.len();
        let mut i = n;
        while i > 0
            invariant
                n == self.stack@.len(),
                i <= n,
                self@ == old(self)@,
                db.wf(),
                db@ == old(db)@,
                forall|j: int| i <= j < n ==> #[trigger] self@.stack[j].user_id != user_id,
                latest_index(self@.stack, user_id) < i,
                -1 <= latest_index(self@.stack, user_id),
                latest_index(self@.stack, user_id) >= 0 ==> self@.stack[latest_index(self@.stack, user_id)].user_id == user_id,
            decreases i,
        {
            i -= 1;
            proof {
                assert(self@.stack[i as int] == self.stack@[i as int]@);
            }
            if self.stack[i].user_id == user_id {
                proof {
                    lemma_latest_index(self@.stack, user_id);
                    assert(self@.stack[i as int].user_id == user_id);
                    assert(latest_index(self@.stack, user_id) <= i);
                    assert(latest_index(self@.stack, user_id) == i);
                }
                let event = self.stack.remove(i).unwrap();
                proof {
                    assert(self@.stack =~= old(self)@.stack.remove(i as int));
                }
                let redo = match db.undo(event) {
                    Ok(redo) => redo,
                    Err(e) => {
                        return Err(e);
                    },
                };
                let objs = redo.get_changed_objects();
                self.redo_stack.push_back(redo);
                proof {
                    assert(self@.redo_stack =~= old(self)@.redo_stack.push(redo@));
                }
                return Ok(objs);
            }
        }
        Err(DBError::NoUndoEvent)
    }

    /// Redoes the latest event of `user` on the redo stack, the mirror of
    /// `undo_latest`: the event leaves the redo stack, its changes are
    /// reverted in `db`, and the event that undoes them again goes on top of
    /// the undo stack.
    pub fn redo_latest(&mut self, user_id: UserID, db: &mut FileDatabase) -> (r: Result<HashSet<RefID>, DBError>)
        requires
            old(db).wf(),
        ensures
            final(db).wf(),
            latest_index(old(self)@.redo_stack, user_id) < 0 ==> {
                &&& r matches Err(DBError::NoUndoEvent)
                &&& final(self)@ == old(self)@
                &&& final(db)@ == old(db)@
            },
            latest_index(old(self)@.redo_stack, user_id) >= 0 ==> ({
                let idx = latest_index(old(self)@.redo_stack, user_id);
                let e = old(self)@.redo_stack[idx];
                let u = undo_changes(old(db)@, e.changes);
                &&& final(self)@.redo_stack == old(self)@.redo_stack.remove(idx)
                &&& final(db)@ == u.0
                &&& u.2 ==> {
                    &&& final(self)@.stack == old(self)@.stack.push(EventView { changes: u.1, ..e })
                    &&& r matches Ok(objs) && objs@ == changed_keys(u.1)
                }
                &&& !u.2 ==> {
                    &&& final(self)@.stack == old(self)@.stack
                    &&& r matches Err(DBError::NotFound(_))
                }
            }),
    {
        proof {
            lemma_latest_index(self@.redo_stack, user_id);
        }
        let n = self.redo_stack.len();
        let mut i = n;
        while i > 0
            invariant
                n == self.redo_stack@.len(),
                i <= n,
                self@ == old(self)@,
                db.wf(),
                db@ == old(db)@,
                forall|j: int| i <= j < n ==> #[trigger] self@.redo_stack[j].user_id != user_id,
                latest_index(self@.redo_stack, user_id) < i,
                -1 <= latest_index(self@.redo_stack, user_id),
                latest_index(self@.redo_stack, user_id) >= 0 ==> self@.redo_stack[latest_index(self@.redo_stack, user_id)].user_id == user_id,
            decreases i,
        {
            i -= 1;
            proof {
                assert(self@.redo_stack[i as int] == self.redo_stack@[i as int]@);
            }
            if self.redo_stack[i].user_id == user_id {
                proof {
                    lemma_latest_index(self@.redo_stack, user_id);
                    assert(self@.redo_stack[i as int].user_id == user_id);
                    assert(latest_index(self@.redo_stack, user_id) <= i);
                    assert(latest_index(self@.redo_stack, user_id) == i);
                }
                let event = self.redo_stack.remove(i).unwrap();
                proof {
                    assert(self@.redo_stack =~= old(self)@.redo_stack.remove(i as int));
                }
                let undo = match db.undo(event) {
                    Ok(undo) => undo,
                    Err(e) => {
                        return Err(e);
                    },
                };
                let objs = undo.get_changed_objects();
                self.stack.push_back(undo);
                proof {
                    assert(self@.stack =~= old(self)@.stack.push(undo@));
                }
                return Ok(objs);
            }
        }
        Err(DBError::NoUndoEvent)
    }
}

/// The concurrent map that holds the events still open.
pub type EventMap = DHashMap<u128, UndoEvent>;

/// What the map of open events holds: each event identifier with its event.
pub uninterp spec fn pending_entries(m: EventMap) -> Map<u128, EventView>;

/// An empty map, from `DHashMap::default`.
///
/// Trusted: `default` builds a power-of-two number of empty sub-maps.
#[verifier::external_body]
fn pending_map_new() -> (r: EventMap)
    ensures
        pending_entries(r).dom() == Set::<u128>::empty(),
{
    DHashMap::default()
}

/// `DHashMap::insert`: the key now maps to the event, whatever it held.
///
/// Trusted: `insert` writes the pair into the sub-map that the key hashes to,
/// replacing the value of an equal key.
#[verifier::external_body]
fn pending_map_insert(m: &mut EventMap, key: u128, value: UndoEvent)
    ensures
        pending_entries(*final(m)) == pending_entries(*old(m)).insert(key, value@),
{
    m.insert(key, value);
}

/// `DHashMap::contains_key`.
///
/// Trusted: true exactly when the key is in the map.
#[verifier::external_body]
fn pending_map_contains(m: &EventMap, key: u128) -> (r: bool)
    ensures
        r == pending_entries(*m).contains_key(key),
{
    m.contains_key(&key)
}

/// `DHashMap::remove`, handing back the removed event.
///
/// Trusted: `remove` takes the entry of the key out of its sub-map and
/// returns it, or returns `None` when the key is absent.
#[verifier::external_body]
fn pending_map_remove(m: &mut EventMap, key: u128) -> (r: Option<UndoEvent>)
    ensures
        pending_entries(*final(m)) == pending_entries(*old(m)).remove(key),
        r is Some == pending_entries(*old(m)).contains_key(key),
        r matches Some(e) ==> e@ == pending_entries(*old(m))[key],
{
    m.remove(&key).map(|pair| pair.1)
}

/// The identifiers of the open events, from `DHashMap::iter`.
///
/// Trusted: the iterator visits every entry of every sub-map once; the order
/// depends on the hashes and is left open.
#[verifier::external_body]
fn pending_map_keys(m: &EventMap) -> (r: Vec<u128>)
    ensures
        r@.no_duplicates(),
        r@.to_set() == pending_entries(*m).dom(),
{
    m.iter().map(|entry| *entry.key()).collect()
}

/// `DHashMap::get`, handing back a copy of the event.
///
/// Trusted: `get` gives a guard on the event of the key, or `None` when the
/// key is absent; the copy is made by `UndoEvent::duplicate`.
#[verifier::external_body]
fn pending_map_get(m: &EventMap, key: u128) -> (r: Option<UndoEvent>)
    ensures
        r is Some == pending_entries(*m).contains_key(key),
        r matches Some(e) ==> e@ == pending_entries(*m)[key],
{
    m.get(&key).map(|e| e.duplicate())
}

/// The lines that the state dump gives the open events `ks`, in order:
/// each identifier with the line of its event.
pub open spec fn pending_text(ks: Seq<UndoEventID>, events: Map<UndoEventID, EventView>) -> Seq<char>
    decreases ks.len(),
{
    if ks.len() == 0 {
        Seq::empty()
    } else {
        pending_text(ks.drop_last(), events) + uuid_text(ks.last()) + " -> "@ + event_text(events[ks.last()])
    }
}

/// The keys `ks`, each once, are those of the map.
pub open spec fn lists_keys<K, V>(ks: Seq<K>, m: Map<K, V>) -> bool {
    ks.no_duplicates() && ks.to_set() == m.dom()
}

/// The events that have begun and not yet ended, by identifier.
pub struct PendingEvents {
    events: EventMap,
}

/// `begin_event`: an open event nests one level deeper; an event that was
/// not open opens for `user` with the description `desc`, no change, no
/// nesting and no suspension.
pub open spec fn begin_event_effect(
    p: Map<UndoEventID, EventView>,
    p2: Map<UndoEventID, EventView>,
    user: UserID,
    event_id: UndoEventID,
    desc: Seq<char>,
) -> bool {
    &&& p.contains_key(event_id) ==> p2 == p.insert(event_id, EventView { nested: (p[event_id].nested + 1) as usize, ..p[event_id] })
    &&& !p.contains_key(event_id) ==> p2 == p.insert(
        event_id,
        EventView {
            event_id,
            user_id: user,
            changes: Seq::empty(),
            timestamp: p2[event_id].timestamp,
            desc,
            nested: 0,
            suspended: 0,
        },
    )
}

/// `end_event`, from the open events `p` and the stacks `s` to `p2` and
/// `s2`: an event that is not open is `NoUndoEvent` and changes nothing; a
/// nested event loses a level; an event at its outer level leaves the open
/// events and goes on top of the undo stack.
pub open spec fn end_event_effect(
    p: Map<UndoEventID, EventView>,
    s: StackView,
    p2: Map<UndoEventID, EventView>,
    s2: StackView,
    event_id: UndoEventID,
    r: Result<(), DBError>,
) -> bool {
    &&& !p.contains_key(event_id) ==> {
        &&& r matches Err(DBError::NoUndoEvent)
        &&& p2 == p
        &&& s2 == s
    }
    &&& p.contains_key(event_id) && p[event_id].nested > 0 ==> {
        &&& r is Ok
        &&& p2 == p.insert(event_id, EventView { nested: (p[event_id].nested - 1) as usize, ..p[event_id] })
        &&& s2 == s
    }
    &&& p.contains_key(event_id) && p[event_id].nested == 0 ==> {
        &&& r is Ok
        &&& p2 == p.remove(event_id)
        &&& s2.stack == s.stack.push(p[event_id])
        &&& s2.redo_stack == s.redo_stack
    }
}

impl View for PendingEvents {
    type V = Map<UndoEventID, EventView>;

    closed spec fn view(&self) -> Map<UndoEventID, EventView> {
        pending_entries(self.events)
    }
}

/// The event with one more change recorded, unless it is suspended.
pub open spec fn record(e: EventView, c: ChangeView) -> EventView {
    if e.suspended == 0 {
        EventView { changes: e.changes.push(c), ..e }
    } else {
        e
    }
}

impl PendingEvents {
    /// How deep the open event is nested and suspended, or `None` where it
    /// is not open.
    pub fn depths(&self, event_id: UndoEventID) -> (r: Option<(usize, usize)>)
        ensures
            r is Some == self@.contains_key(event_id),
            r matches Some(d) ==> d == (self@[event_id].nested, self@[event_id].suspended),
    {
        match pending_map_get(&self.events, event_id) {
            Some(e) => Some((e.nested, e.suspended)),
            None => None,
        }
    }

    /// Appends the open events, one line each, in the order in which the map
    /// is walked.
    pub fn debug_state(&self, output: &mut String)
        ensures
            exists|ks: Seq<UndoEventID>| #[trigger] lists_keys(ks, self@)
                && final(output)@ == old(output)@ + "Pending:\n"@ + pending_text(ks, self@),
    {
        output.append("Pending:\n");
        let keys = pending_map_keys(&self.events);
        let ghost start = output@;
        let mut i: usize = 0;
        proof {
            assert(keys@.take(0) =~= Seq::<u128>::empty());
            assert(output@ =~= start + pending_text(keys@.take(0), self@));
        }
        while i < keys.len()
            invariant
                i <= keys@.len(),
                keys@.to_set() == self@.dom(),
                output@ == start + pending_text(keys@.take(i as int), self@),
            decreases keys@.len() - i,
        {
            let k = keys[i];
            proof {
                assert(keys@.take(i + 1).drop_last() =~= keys@.take(i as int));
                assert(keys@.take(i + 1).last() == k);
                assert(keys@.to_set().contains(k));
            }
            push_uuid(output, k);
            output.append(" -> ");
            match pending_map_get(&self.events, k) {
                Some(e) => {
                    push_event_text(output, &e);
                },
                None => {},
            }
            proof {
                assert(output@ =~= start + pending_text(keys@.take(i + 1), self@));
            }
            i += 1;
        }
        proof {
            assert(keys@.take(keys@.len() as int) =~= keys@);
            assert(lists_keys(keys@, self@));
        }
    }
}

impl PendingEvents {
    /// No open event.
    pub fn new() -> (r: PendingEvents)
        ensures
            r@ == Map::<UndoEventID, EventView>::empty(),
    {
        let r = PendingEvents { events: pending_map_new() };
        proof {
            assert(r@ =~= Map::<UndoEventID, EventView>::empty());
        }
        r
    }

    /// Begins the event `event_id` of `user`, or nests one level deeper into
    /// it where it is already open.
    pub fn begin_event(&mut self, user: UserID, event_id: UndoEventID, desc: String) -> (r: Result<(), DBError>)
        requires
            old(self)@.contains_key(event_id) ==> old(self)@[event_id].nested < usize::MAX,
        ensures
            r is Ok,
            begin_event_effect(old(self)@, final(self)@, user, event_id, desc@),
    {
        match pending_map_remove(&mut self.events, event_id) {
            Some(mut event) => {
                event.nested = event.nested + 1;
                pending_map_insert(&mut self.events, event_id, event);
                proof {
                    assert(self@ =~= old(self)@.insert(event_id, event@));
                }
                Ok(())
            },
            None => {
                let event = UndoEvent::new(user, event_id, desc);
                pending_map_insert(&mut self.events, event_id, event);
                proof {
                    assert(self@ =~= old(self)@.insert(event_id, event@));
                }
                Ok(())
            },
        }
    }

    /// Ends one level of the event: a nested event only loses a level; an
    /// event at its outer level leaves the open events and goes on top of
    /// the undo stack. An event that is not open is `NoUndoEvent`.
    pub fn end_event(&mut self, undo_stack: &mut UndoStack, event_id: UndoEventID) -> (r: Result<(), DBError>)
        ensures
            end_event_effect(old(self)@, old(undo_stack)@, final(self)@, final(undo_stack)@, event_id, r),
    {
        match pending_map_remove(&mut self.events, event_id) {
            Some(mut event) => {
                if event.nested > 0 {
                    event.nested = event.nested - 1;
                    pending_map_insert(&mut self.events, event_id, event);
                    proof {
                        assert(self@ =~= old(self)@.insert(event_id, event@));
                    }
                } else {
                    undo_stack.push_event(event);
                    proof {
                        assert(self@ =~= old(self)@.remove(event_id));
                    }
                }
                Ok(())
            },
            None => {
                proof {
                    assert(self@ =~= old(self)@);
                }
                Err(DBError::NoUndoEvent)
            },
        }
    }

    /// Records in the event the object under `obj_id` as it is now, so that
    /// undoing the event restores it, unless the event is suspended. An
    /// event that is not open is `NoUndoEvent`; an object that `get` does not
    /// find is `NotFound`.
    pub fn take_snapshot(&mut self, db: &FileDatabase, event_id: UndoEventID, obj_id: RefID) -> (r: Result<(), DBError>)
        ensures
            !old(self)@.contains_key(event_id) ==> {
                &&& r matches Err(DBError::NoUndoEvent)
                &&& final(self)@ == old(self)@
            },
            old(self)@.contains_key(event_id) && (obj_id == crate::ids::nil_id() || !db@.contains_key(obj_id)) ==> {
                &&& r matches Err(DBError::NotFound(_))
                &&& final(self)@ == old(self)@
            },
            old(self)@.contains_key(event_id) && obj_id != crate::ids::nil_id() && db@.contains_key(obj_id) ==> {
                &&& r is Ok
                &&& final(self)@ == old(self)@.insert(
                    event_id,
                    record(old(self)@[event_id], ChangeView::Modify { obj: db@[obj_id] }),
                )
            },
    {
        match pending_map_remove(&mut self.events, event_id) {
            Some(mut event) => {
                let res = match db.get(obj_id) {
                    Ok(obj) => {
                        if event.suspended == 0 {
                            event.changes.push(Change::Modify { obj });
                        }
                        Ok(())
                    },
                    Err(e) => Err(e),
                };
                pending_map_insert(&mut self.events, event_id, event);
                proof {
                    if res is Ok && old(self)@[event_id].suspended == 0 {
                        assert(event@.changes =~= old(self)@[event_id].changes.push(
                            ChangeView::Modify { obj: db@[obj_id] },
                        ));
                    }
                    assert(self@ =~= old(self)@.insert(event_id, event@));
                    if res is Err {
                        assert(self@ =~= old(self)@);
                    }
                }
                res
            },
            None => Err(DBError::NoUndoEvent),
        }
    }

    /// Suspends the event one level deeper: while it is suspended, changes
    /// are made without being recorded. An event that is not open is
    /// `NoUndoEvent`.
    pub fn suspend_event(&mut self, event_id: UndoEventID) -> (r: Result<(), DBError>)
        requires
            old(self)@.contains_key(event_id) ==> old(self)@[event_id].suspended < usize::MAX,
        ensures
            !old(self)@.contains_key(event_id) ==> {
                &&& r matches Err(DBError::NoUndoEvent)
                &&& final(self)@ == old(self)@
            },
            old(self)@.contains_key(event_id) ==> {
                &&& r is Ok
                &&& final(self)@ == old(self)@.insert(
                    event_id,
                    EventView { suspended: (old(self)@[event_id].suspended + 1) as usize, ..old(self)@[event_id] },
                )
            },
    {
        match pending_map_remove(&mut self.events, event_id) {
            Some(mut event) => {
                event.suspended = event.suspended + 1;
                pending_map_insert(&mut self.events, event_id, event);
                proof {
                    assert(self@ =~= old(self)@.insert(event_id, event@));
                }
                Ok(())
            },
            None => Err(DBError::NoUndoEvent),
        }
    }

    /// Lifts one level of suspension from the event, if it has any. An event
    /// that is not open is `NoUndoEvent`.
    pub fn resume_event(&mut self, event_id: UndoEventID) -> (r: Result<(), DBError>)
        ensures
            !old(self)@.contains_key(event_id) ==> {
                &&& r matches Err(DBError::NoUndoEvent)
                &&& final(self)@ == old(self)@
            },
            old(self)@.contains_key(event_id) ==> {
                &&& r is Ok
                &&& final(self)@ == old(self)@.insert(
                    event_id,
                    EventView {
                        suspended: if old(self)@[event_id].suspended > 0 {
                            (old(self)@[event_id].suspended - 1) as usize
                        } else {
                            0
                        },
                        ..old(self)@[event_id]
                    },
                )
            },
    {
        match pending_map_remove(&mut self.events, event_id) {
            Some(mut event) => {
                if event.suspended > 0 {
                    event.suspended = event.suspended - 1;
                }
                pending_map_insert(&mut self.events, event_id, event);
                proof {
                    assert(self@ =~= old(self)@.insert(event_id, event@));
                }
                Ok(())
            },
            None => Err(DBError::NoUndoEvent),
        }
    }

    /// Abandons the event: it leaves the open events and its changes are
    /// reverted in `db`; the result is the set of objects that changed. An
    /// event that is not open is `NoUndoEvent`; a revert that fails is
    /// `NotFound`, the changes reverted so far staying in place.
    pub fn cancel_event(&mut self, db: &mut FileDatabase, event_id: UndoEventID) -> (r: Result<HashSet<RefID>, DBError>)
        requires
            old(db).wf(),
        ensures
            final(db).wf(),
            !old(self)@.contains_key(event_id) ==> {
                &&& r matches Err(DBError::NoUndoEvent)
                &&& final(self)@ == old(self)@
                &&& final(db)@ == old(db)@
            },
            old(self)@.contains_key(event_id) ==> ({
                let u = undo_changes(old(db)@, old(self)@[event_id].changes);
                &&& final(self)@ == old(self)@.remove(event_id)
                &&& final(db)@ == u.0
                &&& u.2 ==> (r matches Ok(objs) && objs@ == changed_keys(u.1))
                &&& !u.2 ==> r matches Err(DBError::NotFound(_))
            }),
    {
        match pending_map_remove(&mut self.events, event_id) {
            Some(event) => {
                let redo = db.undo(event)?;
                Ok(redo.get_changed_objects())
            },
            None => Err(DBError::NoUndoEvent),
        }
    }

    /// Adds the object to `db` and records the addition in the event, unless
    /// it is suspended. An event that is not open is `NoUndoEvent` and adds
    /// nothing; an object already there is `Overwrite` and records nothing.
    pub fn add_obj(&mut self, db: &mut FileDatabase, event_id: UndoEventID, obj: DataObject) -> (r: Result<(), DBError>)
        requires
            old(db).wf(),
        ensures
            final(db).wf(),
            !old(self)@.contains_key(event_id) ==> {
                &&& r matches Err(DBError::NoUndoEvent)
                &&& final(self)@ == old(self)@
                &&& final(db)@ == old(db)@
            },
            old(self)@.contains_key(event_id) && old(db)@.contains_key(obj.id) ==> {
                &&& r matches Err(DBError::Overwrite)
                &&& final(self)@ == old(self)@
                &&& final(db)@ == old(db)@
            },
            old(self)@.contains_key(event_id) && !old(db)@.contains_key(obj.id) ==> {
                &&& r is Ok
                &&& final(db)@ == old(db)@.insert(obj.id, obj@)
                &&& final(self)@ == old(self)@.insert(
                    event_id,
                    record(old(self)@[event_id], ChangeView::Add { key: obj.id }),
                )
            },
    {
        match pending_map_remove(&mut self.events, event_id) {
            Some(mut event) => {
                let key = obj.id;
                let res = db.add(obj);
                if res.is_ok() && event.suspended == 0 {
                    event.changes.push(Change::Add { key });
                }
                pending_map_insert(&mut self.events, event_id, event);
                proof {
                    if res is Ok && old(self)@[event_id].suspended == 0 {
                        assert(event@.changes =~= old(self)@[event_id].changes.push(ChangeView::Add { key }));
                    }
                    assert(self@ =~= old(self)@.insert(event_id, event@));
                    if res is Err {
                        assert(self@ =~= old(self)@);
                    }
                }
                res
            },
            None => Err(DBError::NoUndoEvent),
        }
    }

    /// Takes the object under `key` out of `db` and records the deletion in
    /// the event, unless it is suspended. An event that is not open is
    /// `NoUndoEvent`; a missing object is `NotFound`.
    pub fn delete_obj(&mut self, db: &mut FileDatabase, event_id: UndoEventID, key: RefID) -> (r: Result<DataObject, DBError>)
        requires
            old(db).wf(),
        ensures
            final(db).wf(),
            !old(self)@.contains_key(event_id) ==> {
                &&& r matches Err(DBError::NoUndoEvent)
                &&& final(self)@ == old(self)@
                &&& final(db)@ == old(db)@
            },
            old(self)@.contains_key(event_id) && !old(db)@.contains_key(key) ==> {
                &&& r matches Err(DBError::NotFound(_))
                &&& final(self)@ == old(self)@
                &&& final(db)@ == old(db)@
            },
            old(self)@.contains_key(event_id) && old(db)@.contains_key(key) ==> {
                &&& r matches Ok(obj) && obj@ == old(db)@[key]
                &&& final(db)@ == old(db)@.remove(key)
                &&& final(self)@ == old(self)@.insert(
                    event_id,
                    record(old(self)@[event_id], ChangeView::Delete { obj: old(db)@[key] }),
                )
            },
    {
        if !pending_map_contains(&self.events, event_id) {
            return Err(DBError::NoUndoEvent);
        }
        let obj = db.remove(key)?;
        match pending_map_remove(&mut self.events, event_id) {
            Some(mut event) => {
                if event.suspended == 0 {
                    event.changes.push(Change::Delete { obj: obj.duplicate() });
                }
                pending_map_insert(&mut self.events, event_id, event);
                proof {
                    if old(self)@[event_id].suspended == 0 {
                        assert(event@.changes =~= old(self)@[event_id].changes.push(
                            ChangeView::Delete { obj: old(db)@[key] },
                        ));
                    }
                    assert(self@ =~= old(self)@.insert(event_id, event@));
                }
                Ok(obj)
            },
            None => Err(DBError::NoUndoEvent),
        }
    }

    /// Records in the event the object under `key` as it is, unless the
    /// event is suspended, then gives the object the bytes `data`. An event
    /// that is not open is `NoUndoEvent`; the nil key or a missing object is
    /// `NotFound`; neither changes anything.
    pub fn get_mut_obj(&mut self, db: &mut FileDatabase, event_id: UndoEventID, key: RefID, data: Vec<u8>) -> (r: Result<(), DBError>)
        requires
            old(db).wf(),
        ensures
            final(db).wf(),
            !old(self)@.contains_key(event_id) ==> {
                &&& r matches Err(DBError::NoUndoEvent)
                &&& final(self)@ == old(self)@
                &&& final(db)@ == old(db)@
            },
            old(self)@.contains_key(event_id) && (key == crate::ids::nil_id() || !old(db)@.contains_key(key)) ==> {
                &&& r matches Err(DBError::NotFound(_))
                &&& final(self)@ == old(self)@
                &&& final(db)@ == old(db)@
            },
            old(self)@.contains_key(event_id) && key != crate::ids::nil_id() && old(db)@.contains_key(key) ==> {
                &&& r is Ok
                &&& final(db)@ == old(db)@.insert(key, ObjectView { id: key, data: data@ })
                &&& final(self)@ == old(self)@.insert(
                    event_id,
                    record(old(self)@[event_id], ChangeView::Modify { obj: old(db)@[key] }),
                )
            },
    {
        match pending_map_remove(&mut self.events, event_id) {
            Some(mut event) => {
                let obj = match db.get(key) {
                    Ok(obj) => obj,
                    Err(e) => {
                        pending_map_insert(&mut self.events, event_id, event);
                        proof {
                            assert(self@ =~= old(self)@);
                        }
                        return Err(e);
                    },
                };
                if event.suspended == 0 {
                    event.changes.push(Change::Modify { obj });
                }
                pending_map_insert(&mut self.events, event_id, event);
                proof {
                    if old(self)@[event_id].suspended == 0 {
                        assert(event@.changes =~= old(self)@[event_id].changes.push(
                            ChangeView::Modify { obj: old(db)@[key] },
                        ));
                    }
                    assert(self@ =~= old(self)@.insert(event_id, event@));
                }
                db.get_mut(key, data)
            },
            None => Err(DBError::NoUndoEvent),
        }
    }
}

} // verus!
