//! The drawings that are open, each under the path of its file.
use vstd::prelude::*;
use ccl::dhashmap::DHashMap;
use std::collections::HashSet;
use crate::data_object::{DBError, DataObject, ObjectView};
use crate::geometry_kernel::{GeometryId, Reference};
use crate::ids::{RefID, UserID, UndoEventID, nil_id};
use crate::operation_manager::{
    added_result, is_ops_text, OperationManager, OpsView, ops_wf, register_refs, forget_pieces, first_stop, gone_objects, refreshed_pieces,
    refs_for_copy,
};
use crate::operation_manager::data_manager::{
    can_begin, can_suspend, begin_effect, end_effect, suspend_effect, resume_effect, cancel_effect, add_effect,
    delete_effect, modify_effect, snapshot_effect, undo_effect, redo_effect, get_result, save_result,
};
use crate::operation_manager::data_manager::database::{add_records, bincode_read_records, record_ids};
use crate::operation_manager::data_manager::undo::{EventView, lists_keys};
use crate::operation_manager::dep_manager::{key_of, deps_result, searches_result, ordered_refs};
use indexmap::IndexSet;
use crate::text::{escaped, push_escaped};

verus! {

/// The concurrent map that holds the open drawings by path.
pub type FileMap = DHashMap<String, OperationManager>;

/// What the map of open drawings holds: each path with its drawing.
pub uninterp spec fn file_entries(m: FileMap) -> Map<Seq<char>, OpsView>;

/// An empty map, from `DHashMap::default`.
///
/// Trusted: `default` builds a power-of-two number of empty sub-maps.
#[verifier::external_body]
fn file_map_new() -> (r: FileMap)
    ensures
        file_entries(r).dom() == Set::<Seq<char>>::empty(),
{
    DHashMap::default()
}

/// `DHashMap::insert`: the path now maps to the drawing, whatever it held.
///
/// Trusted: `insert` writes the pair into the sub-map that the path hashes
/// to, replacing the drawing of an equal path (strings are equal when their
/// characters are).
#[verifier::external_body]
fn file_map_insert(m: &mut FileMap, key: String, value: OperationManager)
    ensures
        file_entries(*final(m)) == file_entries(*old(m)).insert(key@, value@),
{
    m.insert(key, value);
}

/// `DHashMap::contains_key`.
///
/// Trusted: true exactly when a path with the same characters is in the map.
#[verifier::external_body]
fn file_map_contains(m: &FileMap, key: &String) -> (r: bool)
    ensures
        r == file_entries(*m).contains_key(key@),
{
    m.contains_key(key)
}

/// `DHashMap::remove`, handing back the removed drawing.
///
/// Trusted: `remove` takes the entry of the path out of its sub-map and
/// returns it, or returns `None` when the path is absent.
#[verifier::external_body]
fn file_map_remove(m: &mut FileMap, key: &String) -> (r: Option<OperationManager>)
    ensures
        file_entries(*final(m)) == file_entries(*old(m)).remove(key@),
        r is Some == file_entries(*old(m)).contains_key(key@),
        r matches Some(ops) ==> ops@ == file_entries(*old(m))[key@],
{
    m.remove(key).map(|pair| pair.1)
}

/// The paths of the open drawings, from `DHashMap::iter`.
///
/// Trusted: the iterator visits every entry of every sub-map once, and each
/// path is copied by `String::clone`; the order depends on the hashes and is
/// left open.
#[verifier::external_body]
fn file_map_keys(m: &FileMap) -> (r: Vec<String>)
    ensures
        r@.map_values(|k: String| k@).no_duplicates(),
        r@.map_values(|k: String| k@).to_set() == file_entries(*m).dom(),
{
    m.iter().map(|entry| entry.key().clone()).collect()
}

/// The open drawings, each under the path of its file.
pub struct AppState {
    files: FileMap,
}

impl View for AppState {
    type V = Map<Seq<char>, OpsView>;

    closed spec fn view(&self) -> Map<Seq<char>, OpsView> {
        file_entries(self.files)
    }
}

/// Only the drawing under `file` may have changed, and it is still there.
pub open spec fn only_file_changed(old_files: Map<Seq<char>, OpsView>, new_files: Map<Seq<char>, OpsView>, file: Seq<char>) -> bool {
    &&& new_files.contains_key(file)
    &&& new_files == old_files.insert(file, new_files[file])
}

impl AppState {
    /// Every open drawing is well formed.
    pub open spec fn wf(&self) -> bool {
        forall|k: Seq<char>| #[trigger] self@.contains_key(k) ==> ops_wf(self@[k])
    }

    /// No open drawing.
    pub fn new() -> (r: AppState)
        ensures
            r.wf(),
            r@ == Map::<Seq<char>, OpsView>::empty(),
    {
        let r = AppState { files: file_map_new() };
        proof {
            assert(r@ =~= Map::<Seq<char>, OpsView>::empty());
        }
        r
    }

    /// Whether a drawing is open under `file`.
    pub fn is_open(&self, file: &String) -> (r: bool)
        ensures
            r == self@.contains_key(file@),
    {
        file_map_contains(&self.files, file)
    }

    /// Takes the drawing of `file` out, to work on it.
    fn take(&mut self, file: &String) -> (r: Option<OperationManager>)
        requires
            old(self).wf(),
        ensures
            final(self).wf(),
            final(self)@ == old(self)@.remove(file@),
            r is Some == old(self)@.contains_key(file@),
            r matches Some(ops) ==> ops@ == old(self)@[file@] && ops.wf(),
    {
        let r = file_map_remove(&mut self.files, file);
        proof {
            assert forall|k: Seq<char>| #[trigger] self@.contains_key(k) implies ops_wf(self@[k]) by {
                assert(old(self)@.contains_key(k));
            }
        }
        r
    }

    /// Puts a drawing under `file`.
    fn put(&mut self, file: String, ops: OperationManager)
        requires
            old(self).wf(),
            ops.wf(),
        ensures
            final(self).wf(),
            final(self)@ == old(self)@.insert(file@, ops@),
    {
        file_map_insert(&mut self.files, file, ops)
    }
}

/// Opens an empty drawing under `file`, unless one is open there already.
pub fn init_file(state: &mut AppState, file: String)
    requires
        old(state).wf(),
    ensures
        final(state).wf(),
        old(state)@.contains_key(file@) ==> final(state)@ == old(state)@,
        !old(state)@.contains_key(file@) ==> ({
            let ops = final(state)@[file@];
            &&& final(state)@ == old(state)@.insert(file@, ops)
            &&& ops.data.objects == Map::<RefID, ObjectView>::empty()
            &&& ops.data.pending == Map::<UndoEventID, EventView>::empty()
            &&& ops.data.undo.stack == Seq::<EventView>::empty()
            &&& ops.data.undo.redo_stack == Seq::<EventView>::empty()
            &&& ops.deps == Map::<(u128, usize), Set<GeometryId>>::empty()
        }),
{
    if !file_map_contains(&state.files, &file) {
        state.put(file, OperationManager::new());
    }
}

/// Opens under `file` the drawing that `bytes` encode, unless one is open
/// there already (then nothing changes and no identifier is returned); the
/// result is the identifiers of the objects read.
pub fn open_file(state: &mut AppState, file: String, bytes: &[u8]) -> (r: Result<Vec<RefID>, DBError>)
    requires
        old(state).wf(),
    ensures
        final(state).wf(),
        old(state)@.contains_key(file@) ==> (final(state)@ == old(state)@ && (r matches Ok(keys) && keys@.len() == 0)),
        !old(state)@.contains_key(file@) ==> (bincode_read_records(bytes@) is None ==> {
            &&& r matches Err(DBError::Other(_))
            &&& final(state)@ == old(state)@
        }),
        !old(state)@.contains_key(file@) ==> (bincode_read_records(bytes@) matches Some(records) ==> {
            &&& add_records(Map::empty(), records).1 ==> (r matches Ok(keys) && keys@ == record_ids(records) && ({
                let ops = final(state)@[file@];
                &&& final(state)@ == old(state)@.insert(file@, ops)
                &&& ops.data.objects == add_records(Map::empty(), records).0
                &&& ops.data.pending == Map::<UndoEventID, EventView>::empty()
                &&& ops.data.undo.stack == Seq::<EventView>::empty()
                &&& ops.data.undo.redo_stack == Seq::<EventView>::empty()
                &&& ops.deps == Map::<(u128, usize), Set<GeometryId>>::empty()
            }))
            &&& !add_records(Map::empty(), records).1 ==> {
                &&& r matches Err(DBError::Overwrite)
                &&& final(state)@ == old(state)@
            }
        }),
{
    if file_map_contains(&state.files, &file) {
        return Ok(Vec::new());
    }
    let (ops, keys) = OperationManager::open(bytes)?;
    state.put(file, ops);
    Ok(keys)
}

/// The encoded objects of the drawing open under `file`; a path with no open
/// drawing is `FileNotFound`.
pub fn save_file(state: &mut AppState, file: &String) -> (r: Result<Vec<u8>, DBError>)
    requires
        old(state).wf(),
    ensures
        final(state).wf(),
        final(state)@ == old(state)@,
        !old(state)@.contains_key(file@) ==> r matches Err(DBError::FileNotFound),
        old(state)@.contains_key(file@) ==> save_result(old(state)@[file@].data.objects, r),
{
    match state.take(file) {
        Some(ops) => {
            let r = ops.save();
            state.put(file.clone(), ops);
            proof {
                assert(state@ =~= old(state)@);
            }
            r
        },
        None => {
            proof {
                assert(state@ =~= old(state)@);
            }
            Err(DBError::FileNotFound)
        },
    }
}

/// Moves the drawing open under `orig_file` to `file_new` once its bytes
/// have been written there: `written` says how the writing went. A failed
/// write leaves the drawing under `orig_file` and is returned; a path with
/// no open drawing is `FileNotFound`.
pub fn save_as_file(state: &mut AppState, orig_file: &String, file_new: String, written: Result<(), DBError>) -> (r: Result<(), DBError>)
    requires
        old(state).wf(),
    ensures
        final(state).wf(),
        !old(state)@.contains_key(orig_file@) ==> {
            &&& r matches Err(DBError::FileNotFound)
            &&& final(state)@ == old(state)@
        },
        old(state)@.contains_key(orig_file@) && written is Ok ==> {
            &&& r is Ok
            &&& final(state)@ == old(state)@.remove(orig_file@).insert(file_new@, old(state)@[orig_file@])
        },
        old(state)@.contains_key(orig_file@) && written is Err ==> {
            &&& r == written
            &&& final(state)@ == old(state)@
        },
{
    match state.take(orig_file) {
        Some(ops) => {
            match written {
                Ok(()) => {
                    state.put(file_new, ops);
                    Ok(())
                },
                Err(e) => {
                    state.put(orig_file.clone(), ops);
                    proof {
                        assert(state@ =~= old(state)@);
                    }
                    Err(e)
                },
            }
        },
        None => {
            proof {
                assert(state@ =~= old(state)@);
            }
            Err(DBError::FileNotFound)
        },
    }
}

/// A path with no open drawing is `FileNotFound` and changes nothing.
pub open spec fn missing_file<T>(old_files: Map<Seq<char>, OpsView>, new_files: Map<Seq<char>, OpsView>, file: Seq<char>, r: Result<T, DBError>) -> bool {
    !old_files.contains_key(file) ==> {
        &&& r matches Err(DBError::FileNotFound)
        &&& new_files == old_files
    }
}

/// Putting back under a path what was taken out of it changes only that path.
proof fn lemma_put_back(files: Map<Seq<char>, OpsView>, file: Seq<char>, ops: OpsView)
    ensures
        only_file_changed(files, files.remove(file).insert(file, ops), file),
        files.remove(file).insert(file, ops)[file] == ops,
{
    assert(files.remove(file).insert(file, ops) =~= files.insert(file, ops));
}

/// How deep the event is nested and suspended in the drawing under `file`,
/// or `None` where no drawing is open there or the event is not open in it.
pub fn event_depths(state: &mut AppState, file: &String, event_id: UndoEventID) -> (r: Option<(usize, usize)>)
    requires
        old(state).wf(),
    ensures
        final(state).wf(),
        final(state)@ == old(state)@,
        r is Some == (old(state)@.contains_key(file@) && old(state)@[file@].data.pending.contains_key(event_id)),
        r matches Some(d) ==> d == (
            old(state)@[file@].data.pending[event_id].nested,
            old(state)@[file@].data.pending[event_id].suspended,
        ),
{
    match state.take(file) {
        Some(ops) => {
            let r = ops.event_depths(event_id);
            state.put(file.clone(), ops);
            proof {
                assert(state@ =~= old(state)@);
            }
            r
        },
        None => {
            proof {
                assert(state@ =~= old(state)@);
            }
            None
        },
    }
}

/// The references from each of `ids` to everything that follows it, in the
/// drawing under `file`.
pub fn get_all_deps(state: &mut AppState, file: &String, ids: Vec<GeometryId>) -> (r: Result<IndexSet<Reference>, DBError>)
    requires
        old(state).wf(),
    ensures
        final(state).wf(),
        final(state)@ == old(state)@,
        !old(state)@.contains_key(file@) ==> r matches Err(DBError::FileNotFound),
        old(state)@.contains_key(file@) ==> (r matches Ok(refs) && deps_result(old(state)@[file@].deps, ids@, ordered_refs(refs))
            && searches_result(old(state)@[file@].deps, ids@, ordered_refs(refs))),
{
    match state.take(file) {
        Some(ops) => {
            let r = ops.get_all_deps(ids);
            state.put(file.clone(), ops);
            proof {
                assert(state@ =~= old(state)@);
            }
            Ok(r)
        },
        None => {
            proof {
                assert(state@ =~= old(state)@);
            }
            Err(DBError::FileNotFound)
        },
    }
}

/// Begins the event in the drawing under `file`, or nests one level deeper
/// into it.
pub fn begin_undo_event(state: &mut AppState, file: &String, user_id: UserID, event_id: UndoEventID, desc: String) -> (r: Result<(), DBError>)
    requires
        old(state).wf(),
        old(state)@.contains_key(file@) ==> can_begin(old(state)@[file@].data, event_id),
    ensures
        final(state).wf(),
        missing_file(old(state)@, final(state)@, file@, r),
        old(state)@.contains_key(file@) ==> {
            &&& only_file_changed(old(state)@, final(state)@, file@)
            &&& r is Ok
            &&& begin_effect(old(state)@[file@].data, final(state)@[file@].data, user_id, event_id, desc@)
            &&& final(state)@[file@].deps == old(state)@[file@].deps
        },
{
    match state.take(file) {
        Some(mut ops) => {
            let r = ops.begin_undo_event(user_id, event_id, desc);
            state.put(file.clone(), ops);
            proof {
                lemma_put_back(old(state)@, file@, ops@);
            }
            r
        },
        None => {
            proof {
                assert(state@ =~= old(state)@);
            }
            Err(DBError::FileNotFound)
        },
    }
}

/// Ends one level of the event in the drawing under `file`.
pub fn end_undo_event(state: &mut AppState, file: &String, event: UndoEventID) -> (r: Result<(), DBError>)
    requires
        old(state).wf(),
    ensures
        final(state).wf(),
        missing_file(old(state)@, final(state)@, file@, r),
        old(state)@.contains_key(file@) ==> {
            &&& only_file_changed(old(state)@, final(state)@, file@)
            &&& end_effect(old(state)@[file@].data, final(state)@[file@].data, event, r)
            &&& final(state)@[file@].deps == old(state)@[file@].deps
        },
{
    match state.take(file) {
        Some(mut ops) => {
            let r = ops.end_undo_event(event);
            state.put(file.clone(), ops);
            proof {
                lemma_put_back(old(state)@, file@, ops@);
            }
            r
        },
        None => {
            proof {
                assert(state@ =~= old(state)@);
            }
            Err(DBError::FileNotFound)
        },
    }
}

/// Undoes the latest event of `user` in the drawing under `file`; the result
/// is the set of objects whose dependants must be brought up to date.
pub fn undo_latest(state: &mut AppState, file: &String, user: UserID) -> (r: Result<HashSet<RefID>, DBError>)
    requires
        old(state).wf(),
    ensures
        final(state).wf(),
        missing_file(old(state)@, final(state)@, file@, r),
        old(state)@.contains_key(file@) ==> {
            &&& only_file_changed(old(state)@, final(state)@, file@)
            &&& undo_effect(old(state)@[file@].data, final(state)@[file@].data, user, r)
            &&& final(state)@[file@].deps == old(state)@[file@].deps
        },
{
    match state.take(file) {
        Some(mut ops) => {
            let r = ops.undo_latest(user);
            state.put(file.clone(), ops);
            proof {
                lemma_put_back(old(state)@, file@, ops@);
            }
            r
        },
        None => {
            proof {
                assert(state@ =~= old(state)@);
            }
            Err(DBError::FileNotFound)
        },
    }
}

/// Redoes the latest undone event of `user` in the drawing under `file`; the
/// result is the set of objects whose dependants must be brought up to date.
pub fn redo_latest(state: &mut AppState, file: &String, user: UserID) -> (r: Result<HashSet<RefID>, DBError>)
    requires
        old(state).wf(),
    ensures
        final(state).wf(),
        missing_file(old(state)@, final(state)@, file@, r),
        old(state)@.contains_key(file@) ==> {
            &&& only_file_changed(old(state)@, final(state)@, file@)
            &&& redo_effect(old(state)@[file@].data, final(state)@[file@].data, user, r)
            &&& final(state)@[file@].deps == old(state)@[file@].deps
        },
{
    match state.take(file) {
        Some(mut ops) => {
            let r = ops.redo_latest(user);
            state.put(file.clone(), ops);
            proof {
                lemma_put_back(old(state)@, file@, ops@);
            }
            r
        },
        None => {
            proof {
                assert(state@ =~= old(state)@);
            }
            Err(DBError::FileNotFound)
        },
    }
}

/// Suspends the event one level deeper in the drawing under `file`.
pub fn suspend_event(state: &mut AppState, file: &String, event: UndoEventID) -> (r: Result<(), DBError>)
    requires
        old(state).wf(),
        old(state)@.contains_key(file@) ==> can_suspend(old(state)@[file@].data, event),
    ensures
        final(state).wf(),
        missing_file(old(state)@, final(state)@, file@, r),
        old(state)@.contains_key(file@) ==> {
            &&& only_file_changed(old(state)@, final(state)@, file@)
            &&& suspend_effect(old(state)@[file@].data, final(state)@[file@].data, event, r)
            &&& final(state)@[file@].deps == old(state)@[file@].deps
        },
{
    match state.take(file) {
        Some(mut ops) => {
            let r = ops.suspend_event(event);
            state.put(file.clone(), ops);
            proof {
                lemma_put_back(old(state)@, file@, ops@);
            }
            r
        },
        None => {
            proof {
                assert(state@ =~= old(state)@);
            }
            Err(DBError::FileNotFound)
        },
    }
}

/// Lifts one level of suspension from the event in the drawing under `file`.
pub fn resume_event(state: &mut AppState, file: &String, event: UndoEventID) -> (r: Result<(), DBError>)
    requires
        old(state).wf(),
    ensures
        final(state).wf(),
        missing_file(old(state)@, final(state)@, file@, r),
        old(state)@.contains_key(file@) ==> {
            &&& only_file_changed(old(state)@, final(state)@, file@)
            &&& resume_effect(old(state)@[file@].data, final(state)@[file@].data, event, r)
            &&& final(state)@[file@].deps == old(state)@[file@].deps
        },
{
    match state.take(file) {
        Some(mut ops) => {
            let r = ops.resume_event(event);
            state.put(file.clone(), ops);
            proof {
                lemma_put_back(old(state)@, file@, ops@);
            }
            r
        },
        None => {
            proof {
                assert(state@ =~= old(state)@);
            }
            Err(DBError::FileNotFound)
        },
    }
}

/// Abandons the event in the drawing under `file` and reverts its changes;
/// the result is the set of objects whose dependants must be brought up to
/// date.
pub fn cancel_event(state: &mut AppState, file: &String, event: UndoEventID) -> (r: Result<HashSet<RefID>, DBError>)
    requires
        old(state).wf(),
    ensures
        final(state).wf(),
        missing_file(old(state)@, final(state)@, file@, r),
        old(state)@.contains_key(file@) ==> {
            &&& only_file_changed(old(state)@, final(state)@, file@)
            &&& cancel_effect(old(state)@[file@].data, final(state)@[file@].data, event, r)
            &&& final(state)@[file@].deps == old(state)@[file@].deps
        },
{
    match state.take(file) {
        Some(mut ops) => {
            let r = ops.cancel_event(event);
            state.put(file.clone(), ops);
            proof {
                lemma_put_back(old(state)@, file@, ops@);
            }
            r
        },
        None => {
            proof {
                assert(state@ =~= old(state)@);
            }
            Err(DBError::FileNotFound)
        },
    }
}

/// Records the object `key` as it is in the event, in the drawing under
/// `file`.
pub fn take_undo_snapshot(state: &mut AppState, file: &String, event: UndoEventID, key: RefID) -> (r: Result<(), DBError>)
    requires
        old(state).wf(),
    ensures
        final(state).wf(),
        missing_file(old(state)@, final(state)@, file@, r),
        old(state)@.contains_key(file@) ==> {
            &&& only_file_changed(old(state)@, final(state)@, file@)
            &&& snapshot_effect(old(state)@[file@].data, final(state)@[file@].data, event, key, r)
            &&& final(state)@[file@].deps == old(state)@[file@].deps
        },
{
    match state.take(file) {
        Some(mut ops) => {
            let r = ops.take_undo_snapshot(event, key);
            state.put(file.clone(), ops);
            proof {
                lemma_put_back(old(state)@, file@, ops@);
            }
            r
        },
        None => {
            proof {
                assert(state@ =~= old(state)@);
            }
            Err(DBError::FileNotFound)
        },
    }
}

/// Adds the object, whose references are `refs`, in the event, in the
/// drawing under `file`.
pub fn add_obj(state: &mut AppState, file: &String, event: UndoEventID, obj: DataObject, refs: &Vec<Option<Reference>>) -> (r: Result<(), DBError>)
    requires
        old(state).wf(),
    ensures
        final(state).wf(),
        missing_file(old(state)@, final(state)@, file@, r),
        old(state)@.contains_key(file@) ==> {
            &&& only_file_changed(old(state)@, final(state)@, file@)
            &&& add_effect(old(state)@[file@].data, final(state)@[file@].data, event, obj@, r)
            &&& final(state)@[file@].deps == register_refs(old(state)@[file@].deps, refs@)
        },
{
    match state.take(file) {
        Some(mut ops) => {
            let r = ops.add_object(event, obj, refs);
            state.put(file.clone(), ops);
            proof {
                lemma_put_back(old(state)@, file@, ops@);
            }
            r
        },
        None => {
            proof {
                assert(state@ =~= old(state)@);
            }
            Err(DBError::FileNotFound)
        },
    }
}

/// A copy of the object `id` of the drawing under `file`.
pub fn get_obj(state: &mut AppState, file: &String, id: RefID) -> (r: Result<DataObject, DBError>)
    requires
        old(state).wf(),
    ensures
        final(state).wf(),
        final(state)@ == old(state)@,
        !old(state)@.contains_key(file@) ==> r matches Err(DBError::FileNotFound),
        old(state)@.contains_key(file@) ==> get_result(old(state)@[file@].data.objects, id, r),
{
    match state.take(file) {
        Some(ops) => {
            let r = ops.get_obj(id);
            state.put(file.clone(), ops);
            proof {
                assert(state@ =~= old(state)@);
            }
            r
        },
        None => {
            proof {
                assert(state@ =~= old(state)@);
            }
            Err(DBError::FileNotFound)
        },
    }
}

/// Gives the object `id` the bytes `data` in the event, in the drawing under
/// `file`.
pub fn modify_obj(state: &mut AppState, file: &String, event: UndoEventID, id: RefID, data: Vec<u8>) -> (r: Result<(), DBError>)
    requires
        old(state).wf(),
    ensures
        final(state).wf(),
        missing_file(old(state)@, final(state)@, file@, r),
        old(state)@.contains_key(file@) ==> {
            &&& only_file_changed(old(state)@, final(state)@, file@)
            &&& modify_effect(old(state)@[file@].data, final(state)@[file@].data, event, id, data@, r)
            &&& final(state)@[file@].deps == old(state)@[file@].deps
        },
{
    match state.take(file) {
        Some(mut ops) => {
            let r = ops.modify_obj(event, id, data);
            state.put(file.clone(), ops);
            proof {
                lemma_put_back(old(state)@, file@, ops@);
            }
            r
        },
        None => {
            proof {
                assert(state@ =~= old(state)@);
            }
            Err(DBError::FileNotFound)
        },
    }
}

/// Deletes the object `id` in the event, in the drawing under `file`, and
/// forgets its pieces `0..num_results` in the dependency graph (see
/// `OperationManager::delete_obj`: the followers are refreshed by the
/// caller).
pub fn delete_obj(state: &mut AppState, file: &String, event: UndoEventID, id: RefID, num_results: usize) -> (r: Result<DataObject, DBError>)
    requires
        old(state).wf(),
    ensures
        final(state).wf(),
        missing_file(old(state)@, final(state)@, file@, r),
        old(state)@.contains_key(file@) ==> {
            &&& only_file_changed(old(state)@, final(state)@, file@)
            &&& delete_effect(old(state)@[file@].data, final(state)@[file@].data, event, id, r)
            &&& r is Ok ==> final(state)@[file@].deps == forget_pieces(old(state)@[file@].deps, id, num_results as nat)
            &&& r is Err ==> final(state)@[file@].deps == old(state)@[file@].deps
        },
{
    match state.take(file) {
        Some(mut ops) => {
            let r = ops.delete_obj(event, id, num_results);
            state.put(file.clone(), ops);
            proof {
                lemma_put_back(old(state)@, file@, ops@);
            }
            r
        },
        None => {
            proof {
                assert(state@ =~= old(state)@);
            }
            Err(DBError::FileNotFound)
        },
    }
}

/// Registers the references `refs` of the object `id` in the drawing under
/// `file`.
pub fn add_deps(state: &mut AppState, file: &String, id: RefID, refs: &Vec<Option<Reference>>) -> (r: Result<(), DBError>)
    requires
        old(state).wf(),
    ensures
        final(state).wf(),
        missing_file(old(state)@, final(state)@, file@, r),
        old(state)@.contains_key(file@) ==> {
            &&& only_file_changed(old(state)@, final(state)@, file@)
            &&& final(state)@[file@].data == old(state)@[file@].data
            &&& (id == nil_id() || !old(state)@[file@].data.objects.contains_key(id)) ==> {
                &&& r matches Err(DBError::NotFound(_))
                &&& final(state)@[file@].deps == old(state)@[file@].deps
            }
            &&& (id != nil_id() && old(state)@[file@].data.objects.contains_key(id)) ==> {
                &&& r is Ok
                &&& final(state)@[file@].deps == register_refs(old(state)@[file@].deps, refs@)
            }
        },
{
    match state.take(file) {
        Some(mut ops) => {
            let r = ops.add_deps(id, refs);
            state.put(file.clone(), ops);
            proof {
                lemma_put_back(old(state)@, file@, ops@);
            }
            r
        },
        None => {
            proof {
                assert(state@ =~= old(state)@);
            }
            Err(DBError::FileNotFound)
        },
    }
}

/// Makes `sub` no longer follow `publisher` in the drawing under `file`.
pub fn remove_dep(state: &mut AppState, file: &String, publisher: &GeometryId, sub: &GeometryId) -> (r: Result<(), DBError>)
    requires
        old(state).wf(),
    ensures
        final(state).wf(),
        missing_file(old(state)@, final(state)@, file@, r),
        old(state)@.contains_key(file@) ==> {
            &&& r is Ok
            &&& only_file_changed(old(state)@, final(state)@, file@)
            &&& final(state)@[file@].data == old(state)@[file@].data
            &&& !old(state)@[file@].deps.contains_key(key_of(*publisher)) ==> final(state)@[file@].deps == old(state)@[file@].deps
            &&& old(state)@[file@].deps.contains_key(key_of(*publisher)) ==> final(state)@[file@].deps == old(state)@[file@].deps.insert(
                key_of(*publisher),
                old(state)@[file@].deps[key_of(*publisher)].remove(*sub),
            )
        },
{
    match state.take(file) {
        Some(mut ops) => {
            ops.remove_dep(publisher, sub);
            state.put(file.clone(), ops);
            proof {
                lemma_put_back(old(state)@, file@, ops@);
            }
            Ok(())
        },
        None => {
            proof {
                assert(state@ =~= old(state)@);
            }
            Err(DBError::FileNotFound)
        },
    }
}

/// Copies the object `id` of the drawing under `file` under a fresh
/// identifier with the bytes `data` and adds the copy in the event,
/// registering the references `refs` of the cleared object as those of the
/// copy; the result is the copy's identifier.
pub fn copy_obj(state: &mut AppState, file: &String, event: UndoEventID, id: RefID, data: Vec<u8>, refs: &Vec<Option<Reference>>) -> (r: Result<RefID, DBError>)
    requires
        old(state).wf(),
    ensures
        final(state).wf(),
        missing_file(old(state)@, final(state)@, file@, r),
        old(state)@.contains_key(file@) ==> {
            &&& only_file_changed(old(state)@, final(state)@, file@)
            &&& r matches Ok(k) ==> final(state)@[file@].deps == register_refs(old(state)@[file@].deps, refs_for_copy(refs@, id, k))
            &&& r is Err ==> final(state)@[file@].deps == old(state)@[file@].deps
            &&& (id == nil_id() || !old(state)@[file@].data.objects.contains_key(id)) ==> {
                &&& r matches Err(DBError::NotFound(_))
                &&& final(state)@[file@] == old(state)@[file@]
            }
            &&& (id != nil_id() && old(state)@[file@].data.objects.contains_key(id)) ==> exists|k: RefID|
                #[trigger] add_effect(old(state)@[file@].data, final(state)@[file@].data, event, ObjectView { id: k, data: data@ }, added_result(r))
                && (r matches Ok(c) ==> c == k)
            &&& r matches Ok(k) ==> {
                &&& final(state)@[file@].data.objects == old(state)@[file@].data.objects.insert(k, ObjectView { id: k, data: data@ })
                &&& !old(state)@[file@].data.objects.contains_key(k)
            }
        },
{
    match state.take(file) {
        Some(mut ops) => {
            let r = ops.copy_obj(event, id, data, refs);
            state.put(file.clone(), ops);
            proof {
                lemma_put_back(old(state)@, file@, ops@);
            }
            r
        },
        None => {
            proof {
                assert(state@ =~= old(state)@);
            }
            Err(DBError::FileNotFound)
        },
    }
}

/// Copies the object `id` of the drawing under `file` under the identifier
/// `copy_id` with the bytes `data` and adds the copy in the event,
/// registering the references `refs` of the cleared object as those of the
/// copy; the result is `copy_id`.
pub fn copy_obj_as(state: &mut AppState, file: &String, event: UndoEventID, id: RefID, copy_id: RefID, data: Vec<u8>, refs: &Vec<Option<Reference>>) -> (r: Result<RefID, DBError>)
    requires
        old(state).wf(),
    ensures
        final(state).wf(),
        missing_file(old(state)@, final(state)@, file@, r),
        old(state)@.contains_key(file@) ==> {
            &&& only_file_changed(old(state)@, final(state)@, file@)
            &&& r is Ok ==> final(state)@[file@].deps == register_refs(old(state)@[file@].deps, refs_for_copy(refs@, id, copy_id))
            &&& r is Err ==> final(state)@[file@].deps == old(state)@[file@].deps
            &&& (id == nil_id() || !old(state)@[file@].data.objects.contains_key(id)) ==> {
                &&& r matches Err(DBError::NotFound(_))
                &&& final(state)@[file@] == old(state)@[file@]
            }
            &&& (id != nil_id() && old(state)@[file@].data.objects.contains_key(id)) ==> {
                &&& add_effect(old(state)@[file@].data, final(state)@[file@].data, event, ObjectView { id: copy_id, data: data@ }, added_result(r))
                &&& r matches Ok(k) ==> k == copy_id
            }
        },
{
    match state.take(file) {
        Some(mut ops) => {
            let r = ops.copy_obj_as(event, id, copy_id, data, refs);
            state.put(file.clone(), ops);
            proof {
                lemma_put_back(old(state)@, file@, ops@);
            }
            r
        },
        None => {
            proof {
                assert(state@ =~= old(state)@);
            }
            Err(DBError::FileNotFound)
        },
    }
}

/// Gives the object `id` of the drawing under `file` the bytes `data`
/// without recording anything, as a refresh does.
pub fn modify_obj_no_undo(state: &mut AppState, file: &String, id: RefID, data: Vec<u8>) -> (r: Result<(), DBError>)
    requires
        old(state).wf(),
    ensures
        final(state).wf(),
        missing_file(old(state)@, final(state)@, file@, r),
        old(state)@.contains_key(file@) ==> {
            &&& only_file_changed(old(state)@, final(state)@, file@)
            &&& final(state)@[file@].deps == old(state)@[file@].deps
            &&& final(state)@[file@].data.pending == old(state)@[file@].data.pending
            &&& final(state)@[file@].data.undo == old(state)@[file@].data.undo
            &&& (id == nil_id() || !old(state)@[file@].data.objects.contains_key(id)) ==> {
                &&& r matches Err(DBError::NotFound(_))
                &&& final(state)@[file@].data.objects == old(state)@[file@].data.objects
            }
            &&& (id != nil_id() && old(state)@[file@].data.objects.contains_key(id)) ==> {
                &&& r is Ok
                &&& final(state)@[file@].data.objects == old(state)@[file@].data.objects.insert(id, ObjectView { id, data: data@ })
            }
        },
{
    match state.take(file) {
        Some(mut ops) => {
            let r = ops.modify_obj_no_undo(id, data);
            state.put(file.clone(), ops);
            proof {
                lemma_put_back(old(state)@, file@, ops@);
            }
            r
        },
        None => {
            proof {
                assert(state@ =~= old(state)@);
            }
            Err(DBError::FileNotFound)
        },
    }
}

/// Copies of all the objects of the drawing under `file`, each once.
pub fn iterate_all(state: &mut AppState, file: &String) -> (r: Result<Vec<DataObject>, DBError>)
    requires
        old(state).wf(),
    ensures
        final(state).wf(),
        final(state)@ == old(state)@,
        !old(state)@.contains_key(file@) ==> r matches Err(DBError::FileNotFound),
        old(state)@.contains_key(file@) ==> (r matches Ok(objs) && {
            &&& objs@.map_values(|o: DataObject| o.id).no_duplicates()
            &&& forall|i: int| 0 <= i < objs@.len() ==> {
                &&& old(state)@[file@].data.objects.contains_key(#[trigger] objs@[i].id)
                &&& objs@[i]@ == old(state)@[file@].data.objects[objs@[i].id]
            }
            &&& forall|k: RefID| old(state)@[file@].data.objects.contains_key(k) ==> objs@.map_values(|o: DataObject| o.id).contains(k)
        }),
{
    match state.take(file) {
        Some(ops) => {
            let r = ops.iterate_all();
            state.put(file.clone(), ops);
            proof {
                assert(state@ =~= old(state)@);
            }
            Ok(r)
        },
        None => {
            proof {
                assert(state@ =~= old(state)@);
            }
            Err(DBError::FileNotFound)
        },
    }
}

/// Brings the dependency graph of the drawing under `file` in line with the
/// answers of the refreshed objects (see
/// `OperationManager::update_set_from_refs`).
pub fn update_set_from_refs(state: &mut AppState, file: &String, answers: Vec<(RefID, Result<usize, DBError>)>) -> (r: Result<(IndexSet<Reference>, HashSet<RefID>), DBError>)
    requires
        old(state).wf(),
    ensures
        final(state).wf(),
        missing_file(old(state)@, final(state)@, file@, r),
        old(state)@.contains_key(file@) ==> {
            &&& only_file_changed(old(state)@, final(state)@, file@)
            &&& final(state)@[file@].data == old(state)@[file@].data
            &&& first_stop(answers@) >= 0 ==> {
                &&& r matches Err(e) && answers@[first_stop(answers@)].1 == Err::<usize, DBError>(e)
                &&& final(state)@[file@].deps == old(state)@[file@].deps
            }
            &&& first_stop(answers@) < 0 ==> (r matches Ok((refs, gone)) && {
                &&& gone@ == gone_objects(answers@)
                &&& final(state)@[file@].deps == old(state)@[file@].deps.restrict(
                    old(state)@[file@].deps.dom().filter(|k: (u128, usize)| !gone_objects(answers@).contains(k.0)),
                )
                &&& deps_result(final(state)@[file@].deps, refreshed_pieces(answers@), ordered_refs(refs))
                &&& searches_result(final(state)@[file@].deps, refreshed_pieces(answers@), ordered_refs(refs))
            })
        },
{
    match state.take(file) {
        Some(mut ops) => {
            let r = ops.update_set_from_refs(answers);
            state.put(file.clone(), ops);
            proof {
                lemma_put_back(old(state)@, file@, ops@);
            }
            r
        },
        None => {
            proof {
                assert(state@ =~= old(state)@);
            }
            Err(DBError::FileNotFound)
        },
    }
}

/// The state dump of the drawings under `paths`, each headed by its path
/// written as a quoted Rust string:
/// `texts` holds the dump of each drawing at the same place.
pub open spec fn files_text(paths: Seq<Seq<char>>, texts: Seq<Seq<char>>) -> Seq<char>
    decreases paths.len(),
{
    if paths.len() == 0 {
        Seq::empty()
    } else {
        files_text(paths.drop_last(), texts.drop_last()) + "File: \""@ + escaped(paths.last()) + "\"\n"@ + texts.last()
    }
}

/// The state dump of every open drawing, each headed by its path, in the
/// order in which the map is walked.
pub fn debug_state(state: &mut AppState) -> (r: String)
    requires
        old(state).wf(),
    ensures
        final(state).wf(),
        final(state)@ == old(state)@,
        exists|paths: Seq<Seq<char>>, texts: Seq<Seq<char>>| #![trigger files_text(paths, texts)]
            lists_keys(paths, old(state)@) && texts.len() == paths.len()
            && (forall|i: int| 0 <= i < paths.len() ==> #[trigger] is_ops_text(texts[i], old(state)@[paths[i]]))
            && r@ == files_text(paths, texts),
{
    let mut total = String::new();
    let keys = file_map_keys(&state.files);
    let ghost paths = keys@.map_values(|k: String| k@);
    let ghost mut texts: Seq<Seq<char>> = Seq::empty();
    let mut i: usize = 0;
    proof {
        assert(paths.take(0) =~= Seq::<Seq<char>>::empty());
        assert(total@ =~= files_text(paths.take(0), texts));
    }
    while i < keys.len()
        invariant
            state.wf(),
            state@ == old(state)@,
            i <= keys@.len(),
            paths == keys@.map_values(|k: String| k@),
            paths.to_set() == old(state)@.dom(),
            texts.len() == i,
            forall|j: int| 0 <= j < i ==> #[trigger] is_ops_text(texts[j], old(state)@[paths[j]]),
            total@ == files_text(paths.take(i as int), texts),
        decreases keys@.len() - i,
    {
        let path = &keys[i];
        proof {
            assert(paths.take(i + 1).drop_last() =~= paths.take(i as int));
            assert(paths.take(i + 1).last() == path@);
            assert(paths.to_set().contains(paths[i as int]));
        }
        total.append("File: \"");
        push_escaped(&mut total, path.as_str());
        total.append("\"\n");
        let ghost before = total@;
        match state.take(path) {
            Some(ops) => {
                ops.debug_state(&mut total);
                let ghost t = choose|t: Seq<char>| #[trigger] is_ops_text(t, ops@) && total@ == before + t;
                state.put(path.clone(), ops);
                proof {
                    assert(state@ =~= old(state)@);
                    let texts2 = texts.push(t);
                    assert(texts2.drop_last() =~= texts);
                    assert(total@ =~= files_text(paths.take(i + 1), texts2));
                    assert forall|j: int| 0 <= j < i + 1 implies #[trigger] is_ops_text(texts2[j], old(state)@[paths[j]]) by {
                        if j < i {
                            assert(texts2[j] == texts[j]);
                        }
                    }
                    texts = texts2;
                }
            },
            None => {
                proof {
                    assert(false);
                }
            },
        }
        i += 1;
    }
    proof {
        assert(paths.take(paths.len() as int) =~= paths);
        assert(lists_keys(paths, old(state)@));
    }
    total
}

} // verus!
