//! What the operations on the data of a drawing promise, stated over the
//! objects and the open events before and after each call.
use vstd::prelude::*;
use std::collections::HashSet;
use crate::data_object::{DBError, ObjectView};
use crate::ids::{RefID, UserID, UndoEventID};
use super::{ManagerView, add_effect, delete_effect, modify_effect, snapshot_effect, undo_effect, redo_effect, cancel_effect, begin_effect};
use super::database::{keys_are_ids, undo_changes};
use super::undo::{ChangeView, EventView, begin_event_effect, changed_keys, change_key};

verus! {

/// The object under `k` is not the same in `a` and `b`: it is in one and
/// not the other, or it is in both with different contents.
pub open spec fn differs(a: Map<RefID, ObjectView>, b: Map<RefID, ObjectView>, k: RefID) -> bool {
    ||| a.contains_key(k) != b.contains_key(k)
    ||| (a.contains_key(k) && b.contains_key(k) && a[k] != b[k])
}

/// Reverting changes on a database whose objects are under their own
/// identifiers changes only objects whose keys the redo changes name, and
/// leaves the objects under their own identifiers.
proof fn lemma_reverted_keys_are_named(db: Map<RefID, ObjectView>, cs: Seq<ChangeView>)
    requires
        keys_are_ids(db),
    ensures
        keys_are_ids(undo_changes(db, cs).0),
        forall|k: RefID| #[trigger] differs(db, undo_changes(db, cs).0, k) ==> changed_keys(undo_changes(db, cs).1).contains(k),
    decreases cs.len(),
{
    let u = undo_changes(db, cs);
    if cs.len() > 0 {
        let c = cs.last();
        let (db2, r) = match c {
            ChangeView::Add { key } => (db.remove(key), ChangeView::Delete { obj: db[key] }),
            ChangeView::Modify { obj } => (db.insert(obj.id, obj), ChangeView::Modify { obj: db[obj.id] }),
            ChangeView::Delete { obj } => (db.insert(obj.id, obj), ChangeView::Add { key: obj.id }),
        };
        let ok = match c {
            ChangeView::Add { key } => db.contains_key(key),
            ChangeView::Modify { obj } => db.contains_key(obj.id),
            ChangeView::Delete { obj } => true,
        };
        if ok {
            assert(keys_are_ids(db2)) by {
                assert forall|k: RefID| #[trigger] db2.contains_key(k) implies db2[k].id == k by {
                    assert(db.contains_key(k) ==> db[k].id == k);
                }
            }
            // The revert touches only the key that its redo change names.
            assert forall|k: RefID| k != change_key(r) implies !#[trigger] differs(db, db2, k) by {
                match c {
                    ChangeView::Add { key } => {
                        assert(db[key].id == key);
                    },
                    ChangeView::Modify { obj } => {
                        assert(db[obj.id].id == obj.id);
                    },
                    ChangeView::Delete { obj } => {},
                }
            }
            lemma_reverted_keys_are_named(db2, cs.drop_last());
            let rest = undo_changes(db2, cs.drop_last());
            assert(u.0 == rest.0 && u.1 == seq![r] + rest.1);
            let ks = u.1.map_values(|c: ChangeView| change_key(c));
            let rks = rest.1.map_values(|c: ChangeView| change_key(c));
            assert forall|k: RefID| #[trigger] differs(db, u.0, k) implies changed_keys(u.1).contains(k) by {
                assert(u.1[0] == r);
                if k == change_key(r) {
                    assert(ks[0] == k);
                } else {
                    assert(!differs(db, db2, k));
                    assert(differs(db2, rest.0, k));
                    assert(changed_keys(rest.1).contains(k));
                    assert(rks.contains(k));
                    let j = choose|j: int| 0 <= j < rks.len() && rks[j] == k;
                    assert(u.1[j + 1] == rest.1[j]);
                    assert(ks[j + 1] == k);
                }
            }
        }
    }
}

/// Undoing reports every object it changed: where `undo_latest` succeeds,
/// each key whose object is not the same before and after the call (added,
/// removed or given other contents) is in the returned set; an undone
/// deletion of `k` reports `k`.
pub proof fn lemma_undo_reports_changed_objects(m: ManagerView, m2: ManagerView, user: UserID, r: Result<HashSet<RefID>, DBError>)
    requires
        keys_are_ids(m.objects),
        undo_effect(m, m2, user, r),
    ensures
        r matches Ok(s) ==> forall|k: RefID| #[trigger] differs(m.objects, m2.objects, k) ==> s@.contains(k),
{
    if r is Ok {
        let e = m.undo.stack[super::undo::latest_index(m.undo.stack, user)];
        lemma_reverted_keys_are_named(m.objects, e.changes);
    }
}

/// Redoing reports every object it changed, as undoing does.
pub proof fn lemma_redo_reports_changed_objects(m: ManagerView, m2: ManagerView, user: UserID, r: Result<HashSet<RefID>, DBError>)
    requires
        keys_are_ids(m.objects),
        redo_effect(m, m2, user, r),
    ensures
        r matches Ok(s) ==> forall|k: RefID| #[trigger] differs(m.objects, m2.objects, k) ==> s@.contains(k),
{
    if r is Ok {
        let e = m.undo.redo_stack[super::undo::latest_index(m.undo.redo_stack, user)];
        lemma_reverted_keys_are_named(m.objects, e.changes);
    }
}

/// Cancelling an event reports every object it changed, as undoing does.
pub proof fn lemma_cancel_reports_changed_objects(m: ManagerView, m2: ManagerView, event_id: UndoEventID, r: Result<HashSet<RefID>, DBError>)
    requires
        keys_are_ids(m.objects),
        cancel_effect(m, m2, event_id, r),
    ensures
        r matches Ok(s) ==> forall|k: RefID| #[trigger] differs(m.objects, m2.objects, k) ==> s@.contains(k),
{
    if r is Ok {
        lemma_reverted_keys_are_named(m.objects, m.pending[event_id].changes);
    }
}

/// Adding an object in an open event: where the event is suspended, its
/// recorded changes, and all the open events, stay as they were; otherwise
/// the addition of the object's key is recorded last in the event and
/// nothing else of the event changes.
pub proof fn lemma_add_records_unless_suspended(m: ManagerView, m2: ManagerView, event_id: UndoEventID, obj: ObjectView, r: Result<(), DBError>)
    requires
        add_effect(m, m2, event_id, obj, r),
        m.pending.contains_key(event_id),
        r is Ok,
    ensures
        m.pending[event_id].suspended > 0 ==> m2.pending == m.pending,
        m.pending[event_id].suspended == 0 ==> m2.pending == m.pending.insert(
            event_id,
            EventView { changes: m.pending[event_id].changes.push(ChangeView::Add { key: obj.id }), ..m.pending[event_id] },
        ),
{
    if m.pending[event_id].suspended > 0 {
        assert(m2.pending =~= m.pending);
    }
}

/// Deleting an object in an open event: where the event is suspended, the
/// open events stay as they were; otherwise the object as it was is
/// recorded last in the event and nothing else of the event changes.
pub proof fn lemma_delete_records_unless_suspended(m: ManagerView, m2: ManagerView, event_id: UndoEventID, key: RefID, r: Result<crate::data_object::DataObject, DBError>)
    requires
        delete_effect(m, m2, event_id, key, r),
        m.pending.contains_key(event_id),
        r is Ok,
    ensures
        m.pending[event_id].suspended > 0 ==> m2.pending == m.pending,
        m.pending[event_id].suspended == 0 ==> m2.pending == m.pending.insert(
            event_id,
            EventView { changes: m.pending[event_id].changes.push(ChangeView::Delete { obj: m.objects[key] }), ..m.pending[event_id] },
        ),
{
    if m.pending[event_id].suspended > 0 {
        assert(m2.pending =~= m.pending);
    }
}

/// Modifying an object in an open event: where the event is suspended, the
/// open events stay as they were; otherwise the object as it was is
/// recorded last in the event and nothing else of the event changes.
pub proof fn lemma_modify_records_unless_suspended(
    m: ManagerView,
    m2: ManagerView,
    event_id: UndoEventID,
    key: RefID,
    data: Seq<u8>,
    r: Result<(), DBError>,
)
    requires
        modify_effect(m, m2, event_id, key, data, r),
        m.pending.contains_key(event_id),
        r is Ok,
    ensures
        m.pending[event_id].suspended > 0 ==> m2.pending == m.pending,
        m.pending[event_id].suspended == 0 ==> m2.pending == m.pending.insert(
            event_id,
            EventView { changes: m.pending[event_id].changes.push(ChangeView::Modify { obj: m.objects[key] }), ..m.pending[event_id] },
        ),
{
    if m.pending[event_id].suspended > 0 {
        assert(m2.pending =~= m.pending);
    }
}

/// Taking a snapshot in an open event: where the event is suspended, the
/// open events stay as they were; otherwise the object as it is is
/// recorded last in the event and nothing else of the event changes.
pub proof fn lemma_snapshot_records_unless_suspended(m: ManagerView, m2: ManagerView, event_id: UndoEventID, key: RefID, r: Result<(), DBError>)
    requires
        snapshot_effect(m, m2, event_id, key, r),
        m.pending.contains_key(event_id),
        r is Ok,
    ensures
        m.pending[event_id].suspended > 0 ==> m2.pending == m.pending,
        m.pending[event_id].suspended == 0 ==> m2.pending == m.pending.insert(
            event_id,
            EventView { changes: m.pending[event_id].changes.push(ChangeView::Modify { obj: m.objects[key] }), ..m.pending[event_id] },
        ),
{
    if m.pending[event_id].suspended > 0 {
        assert(m2.pending =~= m.pending);
    }
}

/// Beginning an event that is already open (and can nest deeper) in the
/// open events only deepens its nesting by one: its identifier, user, recorded changes,
/// time, description and suspension stay, and no other open event changes.
pub proof fn lemma_begin_open_event_only_nests(
    p: Map<UndoEventID, EventView>,
    p2: Map<UndoEventID, EventView>,
    user: UserID,
    event_id: UndoEventID,
    desc: Seq<char>,
)
    requires
        begin_event_effect(p, p2, user, event_id, desc),
        p.contains_key(event_id),
        p[event_id].nested < usize::MAX,
    ensures
        p2.dom() == p.dom(),
        p2[event_id].changes == p[event_id].changes,
        p2[event_id].event_id == p[event_id].event_id,
        p2[event_id].user_id == p[event_id].user_id,
        p2[event_id].timestamp == p[event_id].timestamp,
        p2[event_id].desc == p[event_id].desc,
        p2[event_id].suspended == p[event_id].suspended,
        p2[event_id].nested == p[event_id].nested + 1,
        forall|e: UndoEventID| e != event_id && #[trigger] p.contains_key(e) ==> p2[e] == p[e],
{
    assert(p2.dom() =~= p.dom());
}

/// Beginning an event that is already open (and can nest deeper) in a
/// drawing's data only deepens its nesting by one; its recorded changes stay, and the objects,
/// the stacks and the other open events do not change.
pub proof fn lemma_begin_effect_only_nests(m: ManagerView, m2: ManagerView, user: UserID, event_id: UndoEventID, desc: Seq<char>)
    requires
        begin_effect(m, m2, user, event_id, desc),
        m.pending.contains_key(event_id),
        m.pending[event_id].nested < usize::MAX,
    ensures
        m2.objects == m.objects,
        m2.undo == m.undo,
        m2.pending.dom() == m.pending.dom(),
        m2.pending[event_id].changes == m.pending[event_id].changes,
        m2.pending[event_id].event_id == m.pending[event_id].event_id,
        m2.pending[event_id].user_id == m.pending[event_id].user_id,
        m2.pending[event_id].timestamp == m.pending[event_id].timestamp,
        m2.pending[event_id].desc == m.pending[event_id].desc,
        m2.pending[event_id].suspended == m.pending[event_id].suspended,
        m2.pending[event_id].nested == m.pending[event_id].nested + 1,
        forall|e: UndoEventID| e != event_id && #[trigger] m.pending.contains_key(e) ==> m2.pending[e] == m.pending[e],
{
    assert(m2.pending.dom() =~= m.pending.dom());
}

} // verus!
