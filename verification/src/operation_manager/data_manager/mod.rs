//! Objects, undo events and the undo and redo stacks of one drawing.
use vstd::prelude::*;
use std::collections::HashSet;
use crate::data_object::{DBError, DataObject, ObjectView};
use crate::ids::{RefID, UserID, UndoEventID, nil_id};

pub mod database;
pub mod undo;
pub mod laws;

use database::{FileDatabase, undo_changes, recorded_step, lists_db, add_records, bincode_read_records, bincode_records, record_ids};
use undo::{ChangeView, EventView, StackView, PendingEvents, UndoStack, changed_keys, latest_index, lemma_latest_index, record};
use undo::{begin_event_effect, end_event_effect};
use database::{recorded_trace, objects_text};
use undo::{lists_keys, pending_text, events_text};

verus! {

/// The objects, open events and undo and redo stacks of one drawing.
pub struct DataManager {
    db: FileDatabase,
    pending: PendingEvents,
    undo: UndoStack,
}

/// A data manager, mathematically.
pub struct ManagerView {
    pub objects: Map<RefID, ObjectView>,
    pub pending: Map<UndoEventID, EventView>,
    pub undo: StackView,
}

impl View for DataManager {
    type V = ManagerView;

    closed spec fn view(&self) -> ManagerView {
        ManagerView { objects: self.db@, pending: self.pending@, undo: self.undo@ }
    }
}

/// The event may begin: an open event with that identifier can nest one
/// level deeper.
pub open spec fn can_begin(m: ManagerView, event_id: UndoEventID) -> bool {
    m.pending.contains_key(event_id) ==> m.pending[event_id].nested < usize::MAX
}

/// `begin_undo_event`: the event opens, or an open event nests one level
/// deeper; nothing else changes.
pub open spec fn begin_effect(m: ManagerView, m2: ManagerView, user: UserID, event_id: UndoEventID, desc: Seq<char>) -> bool {
    &&& m2.objects == m.objects
    &&& m2.undo == m.undo
    &&& m.pending.contains_key(event_id) ==> m2.pending == m.pending.insert(
        event_id,
        EventView { nested: (m.pending[event_id].nested + 1) as usize, ..m.pending[event_id] },
    )
    &&& !m.pending.contains_key(event_id) ==> m2.pending == m.pending.insert(
        event_id,
        EventView {
            event_id,
            user_id: user,
            changes: Seq::empty(),
            timestamp: m2.pending[event_id].timestamp,
            desc,
            nested: 0,
            suspended: 0,
        },
    )
}

/// `end_undo_event`: a nested event loses a level; an event at its outer
/// level goes on top of the undo stack; an event that is not open is
/// `NoUndoEvent`.
pub open spec fn end_effect(m: ManagerView, m2: ManagerView, event_id: UndoEventID, r: Result<(), DBError>) -> bool {
    &&& m2.objects == m.objects
    &&& !m.pending.contains_key(event_id) ==> {
        &&& r matches Err(DBError::NoUndoEvent)
        &&& m2 == m
    }
    &&& m.pending.contains_key(event_id) && m.pending[event_id].nested > 0 ==> {
        &&& r is Ok
        &&& m2.pending == m.pending.insert(
            event_id,
            EventView { nested: (m.pending[event_id].nested - 1) as usize, ..m.pending[event_id] },
        )
        &&& m2.undo == m.undo
    }
    &&& m.pending.contains_key(event_id) && m.pending[event_id].nested == 0 ==> {
        &&& r is Ok
        &&& m2.pending == m.pending.remove(event_id)
        &&& m2.undo.stack == m.undo.stack.push(m.pending[event_id])
        &&& m2.undo.redo_stack == m.undo.redo_stack
    }
}

/// The event may be suspended one level deeper.
pub open spec fn can_suspend(m: ManagerView, event_id: UndoEventID) -> bool {
    m.pending.contains_key(event_id) ==> m.pending[event_id].suspended < usize::MAX
}

/// `suspend_event`: the event is suspended one level deeper.
pub open spec fn suspend_effect(m: ManagerView, m2: ManagerView, event_id: UndoEventID, r: Result<(), DBError>) -> bool {
    &&& m2.objects == m.objects
    &&& m2.undo == m.undo
    &&& !m.pending.contains_key(event_id) ==> {
        &&& r matches Err(DBError::NoUndoEvent)
        &&& m2.pending == m.pending
    }
    &&& m.pending.contains_key(event_id) ==> {
        &&& r is Ok
        &&& m2.pending == m.pending.insert(
            event_id,
            EventView { suspended: (m.pending[event_id].suspended + 1) as usize, ..m.pending[event_id] },
        )
    }
}

/// `resume_event`: the event loses one level of suspension, if it has any.
pub open spec fn resume_effect(m: ManagerView, m2: ManagerView, event_id: UndoEventID, r: Result<(), DBError>) -> bool {
    &&& m2.objects == m.objects
    &&& m2.undo == m.undo
    &&& !m.pending.contains_key(event_id) ==> {
        &&& r matches Err(DBError::NoUndoEvent)
        &&& m2.pending == m.pending
    }
    &&& m.pending.contains_key(event_id) ==> {
        &&& r is Ok
        &&& m2.pending == m.pending.insert(
            event_id,
            EventView {
                suspended: if m.pending[event_id].suspended > 0 {
                    (m.pending[event_id].suspended - 1) as usize
                } else {
                    0
                },
                ..m.pending[event_id]
            },
        )
    }
}

/// `cancel_event`: the event is dropped and its changes reverted; the result
/// is the set of objects that changed.
pub open spec fn cancel_effect(m: ManagerView, m2: ManagerView, event_id: UndoEventID, r: Result<HashSet<RefID>, DBError>) -> bool {
    &&& m2.undo == m.undo
    &&& !m.pending.contains_key(event_id) ==> {
        &&& r matches Err(DBError::NoUndoEvent)
        &&& m2 == m
    }
    &&& m.pending.contains_key(event_id) ==> ({
        let u = undo_changes(m.objects, m.pending[event_id].changes);
        &&& m2.pending == m.pending.remove(event_id)
        &&& m2.objects == u.0
        &&& u.2 ==> (r matches Ok(objs) && objs@ == changed_keys(u.1))
        &&& !u.2 ==> (r matches Err(DBError::NotFound(_)))
    })
}

/// `add_obj`: the object is added and the addition recorded, a recorded step.
pub open spec fn add_effect(m: ManagerView, m2: ManagerView, event_id: UndoEventID, obj: ObjectView, r: Result<(), DBError>) -> bool {
    &&& m2.undo == m.undo
    &&& !m.pending.contains_key(event_id) ==> {
        &&& r matches Err(DBError::NoUndoEvent)
        &&& m2 == m
    }
    &&& m.pending.contains_key(event_id) && m.objects.contains_key(obj.id) ==> {
        &&& r matches Err(DBError::Overwrite)
        &&& m2 == m
    }
    &&& m.pending.contains_key(event_id) && !m.objects.contains_key(obj.id) ==> {
        &&& r is Ok
        &&& m2.objects == m.objects.insert(obj.id, obj)
        &&& m2.pending == m.pending.insert(event_id, record(m.pending[event_id], ChangeView::Add { key: obj.id }))
        &&& recorded_step(m.objects, ChangeView::Add { key: obj.id }, m2.objects)
    }
}

/// `delete_obj`: the object is taken out and the deletion recorded, a
/// recorded step.
pub open spec fn delete_effect(m: ManagerView, m2: ManagerView, event_id: UndoEventID, key: RefID, r: Result<DataObject, DBError>) -> bool {
    &&& m2.undo == m.undo
    &&& !m.pending.contains_key(event_id) ==> {
        &&& r matches Err(DBError::NoUndoEvent)
        &&& m2 == m
    }
    &&& m.pending.contains_key(event_id) && !m.objects.contains_key(key) ==> {
        &&& r matches Err(DBError::NotFound(_))
        &&& m2 == m
    }
    &&& m.pending.contains_key(event_id) && m.objects.contains_key(key) ==> {
        &&& r matches Ok(obj) && obj@ == m.objects[key]
        &&& m2.objects == m.objects.remove(key)
        &&& m2.pending == m.pending.insert(event_id, record(m.pending[event_id], ChangeView::Delete { obj: m.objects[key] }))
        &&& recorded_step(m.objects, ChangeView::Delete { obj: m.objects[key] }, m2.objects)
    }
}

/// `get_mut_obj`: the object as it was is recorded, then it takes the bytes
/// `data`, a recorded step.
pub open spec fn modify_effect(m: ManagerView, m2: ManagerView, event_id: UndoEventID, key: RefID, data: Seq<u8>, r: Result<(), DBError>) -> bool {
    &&& m2.undo == m.undo
    &&& !m.pending.contains_key(event_id) ==> {
        &&& r matches Err(DBError::NoUndoEvent)
        &&& m2 == m
    }
    &&& m.pending.contains_key(event_id) && (key == nil_id() || !m.objects.contains_key(key)) ==> {
        &&& r matches Err(DBError::NotFound(_))
        &&& m2 == m
    }
    &&& m.pending.contains_key(event_id) && key != nil_id() && m.objects.contains_key(key) ==> {
        &&& r is Ok
        &&& m2.objects == m.objects.insert(key, ObjectView { id: key, data })
        &&& m2.pending == m.pending.insert(event_id, record(m.pending[event_id], ChangeView::Modify { obj: m.objects[key] }))
        &&& recorded_step(m.objects, ChangeView::Modify { obj: m.objects[key] }, m2.objects)
    }
}

/// `take_undo_snapshot`: the object as it is is recorded.
pub open spec fn snapshot_effect(m: ManagerView, m2: ManagerView, event_id: UndoEventID, key: RefID, r: Result<(), DBError>) -> bool {
    &&& m2.objects == m.objects
    &&& m2.undo == m.undo
    &&& !m.pending.contains_key(event_id) ==> {
        &&& r matches Err(DBError::NoUndoEvent)
        &&& m2.pending == m.pending
    }
    &&& m.pending.contains_key(event_id) && (key == nil_id() || !m.objects.contains_key(key)) ==> {
        &&& r matches Err(DBError::NotFound(_))
        &&& m2.pending == m.pending
    }
    &&& m.pending.contains_key(event_id) && key != nil_id() && m.objects.contains_key(key) ==> {
        &&& r is Ok
        &&& m2.pending == m.pending.insert(event_id, record(m.pending[event_id], ChangeView::Modify { obj: m.objects[key] }))
        &&& recorded_step(m.objects, ChangeView::Modify { obj: m.objects[key] }, m2.objects)
    }
}

/// `undo_latest`: the latest ended event of the user leaves the undo stack,
/// its changes are reverted and its redo event goes on top of the redo stack.
pub open spec fn undo_effect(m: ManagerView, m2: ManagerView, user: UserID, r: Result<HashSet<RefID>, DBError>) -> bool {
    &&& m2.pending == m.pending
    &&& latest_index(m.undo.stack, user) < 0 ==> {
        &&& r matches Err(DBError::NoUndoEvent)
        &&& m2 == m
    }
    &&& latest_index(m.undo.stack, user) >= 0 ==> ({
        let idx = latest_index(m.undo.stack, user);
        let e = m.undo.stack[idx];
        let u = undo_changes(m.objects, e.changes);
        &&& m2.undo.stack == m.undo.stack.remove(idx)
        &&& m2.objects == u.0
        &&& u.2 ==> {
            &&& m2.undo.redo_stack == m.undo.redo_stack.push(EventView { changes: u.1, ..e })
            &&& r matches Ok(objs) && objs@ == changed_keys(u.1)
        }
        &&& !u.2 ==> {
            &&& m2.undo.redo_stack == m.undo.redo_stack
            &&& r matches Err(DBError::NotFound(_))
        }
    })
}

/// `redo_latest`: the mirror of `undo_latest`, from the redo stack to the
/// undo stack.
pub open spec fn redo_effect(m: ManagerView, m2: ManagerView, user: UserID, r: Result<HashSet<RefID>, DBError>) -> bool {
    &&& m2.pending == m.pending
    &&& latest_index(m.undo.redo_stack, user) < 0 ==> {
        &&& r matches Err(DBError::NoUndoEvent)
        &&& m2 == m
    }
    &&& latest_index(m.undo.redo_stack, user) >= 0 ==> ({
        let idx = latest_index(m.undo.redo_stack, user);
        let e = m.undo.redo_stack[idx];
        let u = undo_changes(m.objects, e.changes);
        &&& m2.undo.redo_stack == m.undo.redo_stack.remove(idx)
        &&& m2.objects == u.0
        &&& u.2 ==> {
            &&& m2.undo.stack == m.undo.stack.push(EventView { changes: u.1, ..e })
            &&& r matches Ok(objs) && objs@ == changed_keys(u.1)
        }
        &&& !u.2 ==> {
            &&& m2.undo.stack == m.undo.stack
            &&& r matches Err(DBError::NotFound(_))
        }
    })
}

/// `get_obj`: a copy of the object under `key`; the nil key and a missing
/// object are `NotFound`.
pub open spec fn get_result(objects: Map<RefID, ObjectView>, key: RefID, r: Result<DataObject, DBError>) -> bool {
    &&& (key == nil_id() || !objects.contains_key(key)) ==> (r matches Err(DBError::NotFound(_)))
    &&& (key != nil_id() && objects.contains_key(key)) ==> (r matches Ok(obj) && obj@ == objects[key])
}

/// `save`: the bytes that `bincode` writes of a list of the objects.
pub open spec fn save_result(objects: Map<RefID, ObjectView>, r: Result<Vec<u8>, DBError>) -> bool {
    r matches Ok(bytes) && bincode_read_records(bytes@) matches Some(records) && bytes@ == bincode_records(records)
        && lists_db(records, objects)
}

/// Undoing a user's latest event and then redoing it gives back the objects
/// as they were and puts the same changes back on the undo stack: where the
/// event's changes took the objects through `states` to where they are,
/// `undo_latest` reverts them to `states[0]` and pushes a redo event that is
/// the latest of the user on the redo stack, and `redo_latest` then reverts
/// that redo event back to `states.last()`, giving back the event's changes.
pub proof fn lemma_undo_then_redo(m: ManagerView, states: Seq<Map<RefID, ObjectView>>, user: UserID)
    requires
        latest_index(m.undo.stack, user) >= 0,
        recorded_trace(states, m.undo.stack[latest_index(m.undo.stack, user)].changes),
        states.last() == m.objects,
    ensures
        ({
            let e = m.undo.stack[latest_index(m.undo.stack, user)];
            let u = undo_changes(m.objects, e.changes);
            let redo_stack = m.undo.redo_stack.push(EventView { changes: u.1, ..e });
            &&& u.0 == states[0]
            &&& u.2
            &&& latest_index(redo_stack, user) == m.undo.redo_stack.len()
            &&& undo_changes(u.0, redo_stack[latest_index(redo_stack, user)].changes) == (m.objects, e.changes, true)
        }),
{
    let e = m.undo.stack[latest_index(m.undo.stack, user)];
    lemma_latest_index(m.undo.stack, user);
    database::lemma_undo_inverts_recorded(states, e.changes);
    let u = undo_changes(m.objects, e.changes);
    let redo_stack = m.undo.redo_stack.push(EventView { changes: u.1, ..e });
    assert(redo_stack.last().user_id == user);
}

/// The text of the state dump of a manager whose objects are walked in the
/// order `ks` and whose open events in the order `es`: the objects, the open
/// events and the undo and redo stacks, each part followed by an empty line.
pub open spec fn manager_text(ks: Seq<RefID>, es: Seq<UndoEventID>, m: ManagerView) -> Seq<char> {
    "Objects:\n"@ + objects_text(ks, m.objects) + "\n"@ + "Pending:\n"@ + pending_text(es, m.pending) + "\n"@
        + "Undo Stack:\n"@ + events_text(m.undo.stack) + "Redo Stack:\n"@ + events_text(m.undo.redo_stack) + "\n"@
}

impl DataManager {
    /// Appends the state dump: the objects, the open events and the undo and
    /// redo stacks, the objects and the events in the order in which their
    /// maps are walked.
    pub fn debug_state(&self, output: &mut String)
        ensures
            exists|ks: Seq<RefID>, es: Seq<UndoEventID>| #[trigger] lists_keys(ks, self@.objects) && #[trigger] lists_keys(es, self@.pending)
                && final(output)@ == old(output)@ + manager_text(ks, es, self@),
    {
        self.db.debug_state(output);
        let ghost after_db = output@;
        let ghost ks = choose|ks: Seq<RefID>| #[trigger] lists_keys(ks, self@.objects)
            && after_db == old(output)@ + "Objects:\n"@ + objects_text(ks, self@.objects);
        output.append("\n");
        let ghost before_pending = output@;
        self.pending.debug_state(output);
        let ghost after_pending = output@;
        let ghost es = choose|es: Seq<UndoEventID>| #[trigger] lists_keys(es, self@.pending)
            && after_pending == before_pending + "Pending:\n"@ + pending_text(es, self@.pending);
        output.append("\n");
        self.undo.debug_state(output);
        output.append("\n");
        proof {
            assert(output@ =~= old(output)@ + manager_text(ks, es, self@));
        }
    }
}

/// Cancelling an event whose changes took the objects through `states` to
/// where they are gives back the objects as they were before the first of
/// those changes, and succeeds.
pub proof fn lemma_cancel_restores(
    m: ManagerView,
    m2: ManagerView,
    event_id: UndoEventID,
    states: Seq<Map<RefID, ObjectView>>,
    r: Result<HashSet<RefID>, DBError>,
)
    requires
        m.pending.contains_key(event_id),
        recorded_trace(states, m.pending[event_id].changes),
        states.last() == m.objects,
        cancel_effect(m, m2, event_id, r),
    ensures
        m2.objects == states[0],
        m2.pending == m.pending.remove(event_id),
        r is Ok,
{
    database::lemma_undo_inverts_recorded(states, m.pending[event_id].changes);
}

/// The event `event_id` of `user` described by `desc`, begun at `timestamp`,
/// with nothing recorded, nested `nested` levels deep and not suspended.
pub open spec fn fresh_event(event_id: UndoEventID, user: UserID, desc: Seq<char>, timestamp: u128, nested: int) -> EventView {
    EventView { event_id, user_id: user, changes: Seq::empty(), timestamp, desc, nested: nested as usize, suspended: 0 }
}

/// The step from `ms[a]` to `ms[a + 1]` begins the event.
pub open spec fn begin_step(ms: Seq<ManagerView>, a: int, user: UserID, event_id: UndoEventID, desc: Seq<char>) -> bool {
    begin_effect(ms[a], ms[a + 1], user, event_id, desc) && can_begin(ms[a], event_id)
}

/// The step from `ms[k + a]` to `ms[k + a + 1]` ends the event with the
/// result `rs[a]`.
pub open spec fn end_step(ms: Seq<ManagerView>, rs: Seq<Result<(), DBError>>, k: int, a: int, event_id: UndoEventID) -> bool {
    end_effect(ms[k + a], ms[k + a + 1], event_id, rs[a])
}

/// After `j` begins of an event that was not open, it is open `j - 1`
/// levels deep, and nothing else changed.
proof fn lemma_begins(ms: Seq<ManagerView>, user: UserID, event_id: UndoEventID, desc: Seq<char>, k: int, j: int)
    requires
        1 <= j <= k,
        k <= usize::MAX,
        ms.len() > k,
        !ms[0].pending.contains_key(event_id),
        forall|i: int| 0 <= i < k ==> #[trigger] begin_step(ms, i, user, event_id, desc),
    ensures
        ms[j].pending == ms[0].pending.insert(event_id, fresh_event(event_id, user, desc, ms[1].pending[event_id].timestamp, j - 1)),
        ms[j].objects == ms[0].objects,
        ms[j].undo == ms[0].undo,
    decreases j,
{
    assert(begin_step(ms, j - 1, user, event_id, desc));
    if j > 1 {
        lemma_begins(ms, user, event_id, desc, k, j - 1);
        let t = ms[1].pending[event_id].timestamp;
        assert(ms[j - 1].pending[event_id] == fresh_event(event_id, user, desc, t, j - 2));
        assert(ms[j - 1].pending[event_id].nested < usize::MAX);
        assert(ms[j].pending[event_id] == fresh_event(event_id, user, desc, t, j - 1));
        assert(ms[j].pending =~= ms[0].pending.insert(event_id, fresh_event(event_id, user, desc, ms[1].pending[event_id].timestamp, j - 1)));
    }
}

/// After `i` ends of an event begun `k` times, it is open `k - 1 - i`
/// levels deep, every end so far succeeded, and nothing else changed.
proof fn lemma_ends(ms: Seq<ManagerView>, rs: Seq<Result<(), DBError>>, user: UserID, event_id: UndoEventID, desc: Seq<char>, k: int, i: int)
    requires
        k >= 1,
        k <= usize::MAX,
        0 <= i <= k - 1,
        ms.len() == 2 * k + 2,
        rs.len() == k + 1,
        !ms[0].pending.contains_key(event_id),
        forall|a: int| 0 <= a < k ==> #[trigger] begin_step(ms, a, user, event_id, desc),
        forall|a: int| 0 <= a <= k ==> #[trigger] end_step(ms, rs, k, a, event_id),
    ensures
        ms[k + i].pending == ms[0].pending.insert(event_id, fresh_event(event_id, user, desc, ms[1].pending[event_id].timestamp, k - 1 - i)),
        ms[k + i].objects == ms[0].objects,
        ms[k + i].undo == ms[0].undo,
        forall|a: int| 0 <= a < i ==> (#[trigger] rs[a]) is Ok,
    decreases i,
{
    if i == 0 {
        lemma_begins(ms, user, event_id, desc, k, k);
    } else {
        lemma_ends(ms, rs, user, event_id, desc, k, i - 1);
        assert(end_step(ms, rs, k, i - 1, event_id));
        let t = ms[1].pending[event_id].timestamp;
        assert(ms[k + i - 1].pending[event_id] == fresh_event(event_id, user, desc, t, k - i));
        assert(ms[k + i].pending[event_id] == fresh_event(event_id, user, desc, t, k - 1 - i));
        assert(ms[k + i].pending =~= ms[0].pending.insert(event_id, fresh_event(event_id, user, desc, ms[1].pending[event_id].timestamp, k - 1 - i)));
    }
}

/// Nesting of events: an event that was not open and is begun `k` times,
/// nothing else happening, needs `k` ends. The first `k - 1` ends succeed
/// and change nothing but the nesting; the `k`-th succeeds and puts the
/// event (of `user`, described by `desc`, with no change recorded) on top
/// of the undo stack; one more end is `NoUndoEvent`.
pub proof fn lemma_begin_end_nesting(ms: Seq<ManagerView>, rs: Seq<Result<(), DBError>>, user: UserID, event_id: UndoEventID, desc: Seq<char>, k: int)
    requires
        1 <= k <= usize::MAX,
        ms.len() == 2 * k + 2,
        rs.len() == k + 1,
        !ms[0].pending.contains_key(event_id),
        forall|a: int| 0 <= a < k ==> #[trigger] begin_step(ms, a, user, event_id, desc),
        forall|a: int| 0 <= a <= k ==> #[trigger] end_step(ms, rs, k, a, event_id),
    ensures
        forall|a: int| 0 <= a < k - 1 ==> (#[trigger] rs[a]) is Ok && ms[k + a + 1].undo == ms[0].undo && ms[k + a + 1].objects
            == ms[0].objects,
        rs[k - 1] is Ok,
        ms[2 * k].undo.stack == ms[0].undo.stack.push(fresh_event(event_id, user, desc, ms[1].pending[event_id].timestamp, 0)),
        ms[2 * k].undo.redo_stack == ms[0].undo.redo_stack,
        ms[2 * k].pending == ms[0].pending,
        ms[2 * k].objects == ms[0].objects,
        rs[k] matches Err(DBError::NoUndoEvent),
        ms[2 * k + 1] == ms[2 * k],
{
    lemma_ends(ms, rs, user, event_id, desc, k, k - 1);
    assert forall|a: int| 0 <= a < k - 1 implies (#[trigger] rs[a]) is Ok && ms[k + a + 1].undo == ms[0].undo && ms[k + a + 1].objects
        == ms[0].objects by {
        lemma_ends(ms, rs, user, event_id, desc, k, a + 1);
    }
    assert(end_step(ms, rs, k, k - 1, event_id));
    assert(ms[2 * k].pending =~= ms[0].pending);
    assert(end_step(ms, rs, k, k, event_id));
}

/// The step from `ps[a]` to `ps[a + 1]` begins the event in the open
/// events, the stacks `ss` staying as they are.
pub open spec fn pending_begin_step(
    ps: Seq<Map<UndoEventID, EventView>>,
    ss: Seq<StackView>,
    a: int,
    user: UserID,
    event_id: UndoEventID,
    desc: Seq<char>,
) -> bool {
    &&& ps[a].contains_key(event_id) ==> ps[a][event_id].nested < usize::MAX
    &&& begin_event_effect(ps[a], ps[a + 1], user, event_id, desc)
    &&& ss[a + 1] == ss[a]
}

/// The step from `k + a` to `k + a + 1` ends the event in the open events
/// and the stacks with the result `rs[a]`.
pub open spec fn pending_end_step(
    ps: Seq<Map<UndoEventID, EventView>>,
    ss: Seq<StackView>,
    rs: Seq<Result<(), DBError>>,
    k: int,
    a: int,
    event_id: UndoEventID,
) -> bool {
    end_event_effect(ps[k + a], ss[k + a], ps[k + a + 1], ss[k + a + 1], event_id, rs[a])
}

/// Nesting of events in the open events alone: an event that was not open
/// and is begun `k` times needs `k` ends. The first `k - 1` ends succeed
/// and leave the stacks as they were; the `k`-th succeeds and puts the
/// event (of `user`, described by `desc`, with no change recorded) on top
/// of the undo stack; one more end is `NoUndoEvent` and changes nothing.
pub proof fn lemma_pending_nesting(
    ps: Seq<Map<UndoEventID, EventView>>,
    ss: Seq<StackView>,
    rs: Seq<Result<(), DBError>>,
    user: UserID,
    event_id: UndoEventID,
    desc: Seq<char>,
    k: int,
)
    requires
        1 <= k <= usize::MAX,
        ps.len() == 2 * k + 2,
        ss.len() == 2 * k + 2,
        rs.len() == k + 1,
        !ps[0].contains_key(event_id),
        forall|a: int| 0 <= a < k ==> #[trigger] pending_begin_step(ps, ss, a, user, event_id, desc),
        forall|a: int| 0 <= a <= k ==> #[trigger] pending_end_step(ps, ss, rs, k, a, event_id),
    ensures
        forall|a: int| 0 <= a < k - 1 ==> (#[trigger] rs[a]) is Ok && ss[k + a + 1] == ss[0],
        rs[k - 1] is Ok,
        ss[2 * k].stack == ss[0].stack.push(fresh_event(event_id, user, desc, ps[1][event_id].timestamp, 0)),
        ss[2 * k].redo_stack == ss[0].redo_stack,
        ps[2 * k] == ps[0],
        rs[k] matches Err(DBError::NoUndoEvent),
        ps[2 * k + 1] == ps[2 * k],
        ss[2 * k + 1] == ss[2 * k],
{
    let ms = Seq::new(ps.len(), |i: int| ManagerView { objects: Map::empty(), pending: ps[i], undo: ss[i] });
    assert forall|a: int| 0 <= a < k implies #[trigger] begin_step(ms, a, user, event_id, desc) by {
        assert(pending_begin_step(ps, ss, a, user, event_id, desc));
    }
    assert forall|a: int| 0 <= a <= k implies #[trigger] end_step(ms, rs, k, a, event_id) by {
        assert(pending_end_step(ps, ss, rs, k, a, event_id));
    }
    lemma_begin_end_nesting(ms, rs, user, event_id, desc, k);
    assert forall|a: int| 0 <= a < k - 1 implies (#[trigger] rs[a]) is Ok && ss[k + a + 1] == ss[0] by {
        assert(ms[k + a + 1].undo == ms[0].undo);
    }
    assert(ms[2 * k + 1] == ms[2 * k]);
    assert(ms[2 * k].pending == ms[0].pending);
}

impl DataManager {
    /// The objects are finite in number and each is under its identifier.
    pub open spec fn wf(&self) -> bool {
        &&& self@.objects.dom().finite()
        &&& database::keys_are_ids(self@.objects)
    }

    /// How deep the open event is nested and suspended, or `None` where it
    /// is not open.
    pub fn event_depths(&self, event_id: UndoEventID) -> (r: Option<(usize, usize)>)
        ensures
            r is Some == self@.pending.contains_key(event_id),
            r matches Some(d) ==> d == (self@.pending[event_id].nested, self@.pending[event_id].suspended),
    {
        self.pending.depths(event_id)
    }

    /// A manager with no object, no open event and empty stacks.
    pub fn new() -> (r: DataManager)
        ensures
            r.wf(),
            r@.objects == Map::<RefID, ObjectView>::empty(),
            r@.pending == Map::<UndoEventID, EventView>::empty(),
            r@.undo.stack == Seq::<EventView>::empty(),
            r@.undo.redo_stack == Seq::<EventView>::empty(),
    {
        DataManager { db: FileDatabase::new(), pending: PendingEvents::new(), undo: UndoStack::new() }
    }

    /// A manager holding the objects that `bytes` encode (as `save` writes
    /// them), with no open event and empty stacks, and the identifiers of
    /// those objects in the order they were read. Bytes that `bincode`
    /// cannot read are `Other`; an identifier that occurs twice is
    /// `Overwrite`.
    pub fn open(bytes: &[u8]) -> (r: Result<(DataManager, Vec<RefID>), DBError>)
        ensures
            bincode_read_records(bytes@) is None ==> r matches Err(DBError::Other(_)),
            bincode_read_records(bytes@) matches Some(records) ==> {
                &&& add_records(Map::empty(), records).1 ==> (r matches Ok((m, keys)) && {
                    &&& m.wf()
                    &&& m@.objects == add_records(Map::empty(), records).0
                    &&& m@.pending == Map::<UndoEventID, EventView>::empty()
                    &&& m@.undo.stack == Seq::<EventView>::empty()
                    &&& m@.undo.redo_stack == Seq::<EventView>::empty()
                    &&& keys@ == record_ids(records)
                })
                &&& !add_records(Map::empty(), records).1 ==> r matches Err(DBError::Overwrite)
            },
    {
        let mut db = FileDatabase::new();
        let keys = db.open(bytes)?;
        Ok((DataManager { db, pending: PendingEvents::new(), undo: UndoStack::new() }, keys))
    }

    /// The encoded objects, as `FileDatabase::save` writes them.
    pub fn save(&self) -> (r: Result<Vec<u8>, DBError>)
        ensures
            save_result(self@.objects, r),
    {
        self.db.save()
    }

    /// Begins a new event of `user` under a fresh random identifier and
    /// returns that identifier (see `begin_fresh_event`). Where the
    /// identifier drawn is already that of an open event, nothing changes
    /// and the result is `Overwrite`.
    pub fn begin_undo_event(&mut self, user: UserID, desc: String) -> (r: Result<UndoEventID, DBError>)
        ensures
            r matches Ok(e) ==> {
                &&& e != nil_id()
                &&& !old(self)@.pending.contains_key(e)
                &&& begin_effect(old(self)@, final(self)@, user, e, desc@)
                &&& final(self)@.pending.contains_key(e)
                &&& final(self)@.pending[e].user_id == user
                &&& final(self)@.pending[e].desc == desc@
                &&& final(self)@.pending[e].nested == 0
                &&& final(self)@.pending[e].changes == Seq::<ChangeView>::empty()
            },
            r is Err ==> {
                &&& r matches Err(DBError::Overwrite)
                &&& final(self)@ == old(self)@
            },
    {
        let event_id = crate::ids::new_v4();
        self.begin_fresh_event(user, event_id, desc)
    }

    /// Begins a new event `event_id` of `user` and returns its identifier;
    /// an event already open under that identifier is `Overwrite`, and
    /// nothing changes.
    pub fn begin_fresh_event(&mut self, user: UserID, event_id: UndoEventID, desc: String) -> (r: Result<UndoEventID, DBError>)
        ensures
            old(self)@.pending.contains_key(event_id) ==> {
                &&& r matches Err(DBError::Overwrite)
                &&& final(self)@ == old(self)@
            },
            !old(self)@.pending.contains_key(event_id) ==> {
                &&& r == Ok::<UndoEventID, DBError>(event_id)
                &&& begin_effect(old(self)@, final(self)@, user, event_id, desc@)
                &&& final(self)@.pending.contains_key(event_id)
                &&& final(self)@.pending[event_id].user_id == user
                &&& final(self)@.pending[event_id].desc == desc@
                &&& final(self)@.pending[event_id].nested == 0
                &&& final(self)@.pending[event_id].suspended == 0
                &&& final(self)@.pending[event_id].changes == Seq::<ChangeView>::empty()
            },
    {
        match self.pending.depths(event_id) {
            Some(_) => Err(DBError::Overwrite),
            None => {
                self.pending.begin_event(user, event_id, desc);
                Ok(event_id)
            },
        }
    }

    /// Begins the event `event_id` of `user`, or nests one level deeper into
    /// it where it is already open.
    pub fn begin_undo_event_as(&mut self, user: UserID, event_id: UndoEventID, desc: String) -> (r: Result<(), DBError>)
        requires
            can_begin(old(self)@, event_id),
        ensures
            r is Ok,
            begin_effect(old(self)@, final(self)@, user, event_id, desc@),
    {
        self.pending.begin_event(user, event_id, desc)
    }

    /// Ends one level of the event; at its outer level the event goes on top
    /// of the undo stack. An event that is not open is `NoUndoEvent`.
    pub fn end_undo_event(&mut self, event_id: UndoEventID) -> (r: Result<(), DBError>)
        ensures
            end_effect(old(self)@, final(self)@, event_id, r),
    {
        self.pending.end_event(&mut self.undo, event_id)
    }

    /// Suspends the event one level deeper: while it is suspended, changes
    /// are made without being recorded. An event that is not open is
    /// `NoUndoEvent`.
    pub fn suspend_event(&mut self, event_id: UndoEventID) -> (r: Result<(), DBError>)
        requires
            can_suspend(old(self)@, event_id),
        ensures
            suspend_effect(old(self)@, final(self)@, event_id, r),
    {
        self.pending.suspend_event(event_id)
    }

    /// Lifts one level of suspension from the event, if it has any. An event
    /// that is not open is `NoUndoEvent`.
    pub fn resume_event(&mut self, event_id: UndoEventID) -> (r: Result<(), DBError>)
        ensures
            resume_effect(old(self)@, final(self)@, event_id, r),
    {
        self.pending.resume_event(event_id)
    }

    /// Abandons the event and reverts its changes; the result is the set of
    /// objects that changed. An event that is not open is `NoUndoEvent`; a
    /// revert that fails is `NotFound`.
    pub fn cancel_event(&mut self, event_id: UndoEventID) -> (r: Result<HashSet<RefID>, DBError>)
        requires
            old(self).wf(),
        ensures
            final(self).wf(),
            cancel_effect(old(self)@, final(self)@, event_id, r),
            r matches Ok(changed) ==> forall|k: RefID| #[trigger] laws::differs(old(self)@.objects, final(self)@.objects, k) ==> changed@.contains(k),
    {
        let r = self.pending.cancel_event(&mut self.db, event_id);
        proof {
            laws::lemma_cancel_reports_changed_objects(old(self)@, self@, event_id, r);
        }
        r
    }

    /// Adds the object and records the addition in the event, unless it is
    /// suspended. An event that is not open is `NoUndoEvent`; an object
    /// already there is `Overwrite`; neither changes anything.
    pub fn add_obj(&mut self, event_id: UndoEventID, obj: DataObject) -> (r: Result<(), DBError>)
        requires
            old(self).wf(),
        ensures
            final(self).wf(),
            add_effect(old(self)@, final(self)@, event_id, obj@, r),
    {
        let ghost obj_view = obj@;
        let r = self.pending.add_obj(&mut self.db, event_id, obj);
        proof {
            if r is Ok {
                assert(self@.objects.insert(obj_view.id, self@.objects[obj_view.id]) =~= self@.objects);
                assert(old(self)@.objects.insert(obj_view.id, obj_view) =~= self@.objects);
            }
        }
        r
    }

    /// Takes the object under `key` out and records the deletion in the
    /// event, unless it is suspended. An event that is not open is
    /// `NoUndoEvent`; a missing object is `NotFound`; neither changes
    /// anything.
    pub fn delete_obj(&mut self, event_id: UndoEventID, key: RefID) -> (r: Result<DataObject, DBError>)
        requires
            old(self).wf(),
        ensures
            final(self).wf(),
            delete_effect(old(self)@, final(self)@, event_id, key, r),
    {
        proof {
            database::lemma_keys_are_ids(self.db@);
        }
        self.pending.delete_obj(&mut self.db, event_id, key)
    }

    /// A copy of the object under `key`; the nil key and a missing object are
    /// `NotFound`.
    pub fn get_obj(&self, key: RefID) -> (r: Result<DataObject, DBError>)
        ensures
            get_result(self@.objects, key, r),
    {
        self.db.get(key)
    }

    /// Copies of all the objects, each once.
    pub fn iterate_all(&self) -> (r: Vec<DataObject>)
        requires
            self.wf(),
        ensures
            r@.map_values(|o: DataObject| o.id).no_duplicates(),
            forall|i: int| 0 <= i < r@.len() ==> {
                &&& self@.objects.contains_key(#[trigger] r@[i].id)
                &&& r@[i]@ == self@.objects[r@[i].id]
            },
            forall|k: RefID| self@.objects.contains_key(k) ==> r@.map_values(|o: DataObject| o.id).contains(k),
    {
        self.db.iterate_all()
    }

    /// Records the object under `key` in the event, unless it is suspended,
    /// then gives it the bytes `data`. An event that is not open is
    /// `NoUndoEvent`; the nil key or a missing object is `NotFound`; neither
    /// changes anything.
    pub fn get_mut_obj(&mut self, event_id: UndoEventID, key: RefID, data: Vec<u8>) -> (r: Result<(), DBError>)
        requires
            old(self).wf(),
        ensures
            final(self).wf(),
            modify_effect(old(self)@, final(self)@, event_id, key, data@, r),
    {
        proof {
            database::lemma_keys_are_ids(self.db@);
        }
        let r = self.pending.get_mut_obj(&mut self.db, event_id, key, data);
        proof {
            if r is Ok {
                assert(old(self)@.objects.insert(key, self@.objects[key]) =~= self@.objects);
            }
        }
        r
    }

    /// Gives the object under `key` the bytes `data` without recording
    /// anything; the nil key and a missing object are `NotFound` and change
    /// nothing.
    pub fn get_mut_obj_no_undo(&mut self, key: RefID, data: Vec<u8>) -> (r: Result<(), DBError>)
        requires
            old(self).wf(),
        ensures
            final(self).wf(),
            final(self)@.pending == old(self)@.pending,
            final(self)@.undo == old(self)@.undo,
            (key == nil_id() || !old(self)@.objects.contains_key(key)) ==> {
                &&& r matches Err(DBError::NotFound(_))
                &&& final(self)@.objects == old(self)@.objects
            },
            (key != nil_id() && old(self)@.objects.contains_key(key)) ==> {
                &&& r is Ok
                &&& final(self)@.objects == old(self)@.objects.insert(key, ObjectView { id: key, data: data@ })
            },
    {
        self.db.get_mut(key, data)
    }

    /// A copy of the object under `key` under a fresh random identifier; the
    /// nil key and a missing object are `NotFound`.
    pub fn duplicate_obj(&self, key: RefID) -> (r: Result<DataObject, DBError>)
        ensures
            (key == nil_id() || !self@.objects.contains_key(key)) ==> r matches Err(DBError::NotFound(_)),
            (key != nil_id() && self@.objects.contains_key(key)) ==> (r matches Ok(obj) && obj@.data == self@.objects[key].data),
    {
        self.db.duplicate(key)
    }

    /// A copy of the object under `key` under the identifier `id`; the nil
    /// key and a missing object are `NotFound`.
    pub fn duplicate_obj_as(&self, key: RefID, id: RefID) -> (r: Result<DataObject, DBError>)
        ensures
            (key == nil_id() || !self@.objects.contains_key(key)) ==> r matches Err(DBError::NotFound(_)),
            (key != nil_id() && self@.objects.contains_key(key)) ==> (r matches Ok(obj) && obj@ == (ObjectView {
                id,
                data: self@.objects[key].data,
            })),
    {
        self.db.duplicate_as(key, id)
    }

    /// Undoes the latest ended event of `user`: it leaves the undo stack, its
    /// changes are reverted, and the event that redoes them goes on top of
    /// the redo stack. The result is the set of objects that changed.
    pub fn undo_latest(&mut self, user: UserID) -> (r: Result<HashSet<RefID>, DBError>)
        requires
            old(self).wf(),
        ensures
            final(self).wf(),
            undo_effect(old(self)@, final(self)@, user, r),
            r matches Ok(changed) ==> forall|k: RefID| #[trigger] laws::differs(old(self)@.objects, final(self)@.objects, k) ==> changed@.contains(k),
    {
        let r = self.undo.undo_latest(user, &mut self.db);
        proof {
            laws::lemma_undo_reports_changed_objects(old(self)@, self@, user, r);
        }
        r
    }

    /// Records in the event the object under `key` as it is now, unless the
    /// event is suspended. An event that is not open is `NoUndoEvent`; the
    /// nil key or a missing object is `NotFound`.
    pub fn take_undo_snapshot(&mut self, event_id: UndoEventID, key: RefID) -> (r: Result<(), DBError>)
        requires
            old(self).wf(),
        ensures
            final(self).wf(),
            snapshot_effect(old(self)@, final(self)@, event_id, key, r),
    {
        proof {
            database::lemma_keys_are_ids(self.db@);
        }
        let r = self.pending.take_snapshot(&self.db, event_id, key);
        proof {
            if r is Ok {
                assert(self@.objects.insert(key, self@.objects[key]) =~= self@.objects);
            }
        }
        r
    }

    /// Redoes the latest undone event of `user`, the mirror of `undo_latest`.
    pub fn redo_latest(&mut self, user: UserID) -> (r: Result<HashSet<RefID>, DBError>)
        requires
            old(self).wf(),
        ensures
            final(self).wf(),
            redo_effect(old(self)@, final(self)@, user, r),
            r matches Ok(changed) ==> forall|k: RefID| #[trigger] laws::differs(old(self)@.objects, final(self)@.objects, k) ==> changed@.contains(k),
    {
        let r = self.undo.redo_latest(user, &mut self.db);
        proof {
            laws::lemma_redo_reports_changed_objects(old(self)@, self@, user, r);
        }
        r
    }
}

} // verus!
