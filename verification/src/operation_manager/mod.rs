//! The data of an open drawing: its objects, their undo history and the
//! dependencies between their geometry.
use vstd::prelude::*;
use std::collections::HashSet;
use indexmap::IndexSet;
use crate::data_object::{DBError, DataObject, ObjectView};
use crate::geometry_kernel::{GeometryId, Reference};
use crate::ids::{RefID, UserID, UndoEventID, nil_id};

pub mod data_manager;
pub mod dep_manager;

use data_manager::{
    DataManager, ManagerView, can_begin, can_suspend, begin_effect, end_effect, suspend_effect, resume_effect,
    cancel_effect, add_effect, delete_effect, modify_effect, snapshot_effect, undo_effect, redo_effect, get_result,
    save_result,
};
use data_manager::database::{keys_are_ids, add_records, bincode_read_records, record_ids};
use data_manager::undo::EventView;
use dep_manager::{DependencyManager, deps_result, searches_result, ordered_refs, key_of, subs_of, lists_graph, deps_text};
use data_manager::manager_text;
use data_manager::undo::lists_keys;
use crate::text::decimal;

verus! {

/// The graph with `sub` following `publisher`, as `register_sub` makes it:
/// a follower of the nil object, or a piece following itself, is left out.
pub open spec fn register_one(graph: Map<(u128, usize), Set<GeometryId>>, publisher: GeometryId, sub: GeometryId) -> Map<(u128, usize), Set<GeometryId>> {
    if sub.id != nil_id() && publisher != sub {
        graph.insert(key_of(publisher), subs_of(graph, publisher).insert(sub))
    } else {
        graph
    }
}

/// The graph with each of the references registered in turn, the owner of
/// each following its other end.
pub open spec fn register_refs(graph: Map<(u128, usize), Set<GeometryId>>, refs: Seq<Option<Reference>>) -> Map<(u128, usize), Set<GeometryId>>
    decreases refs.len(),
{
    if refs.len() == 0 {
        graph
    } else {
        let g = register_refs(graph, refs.drop_last());
        match refs.last() {
            Some(r) => register_one(g, r.other, r.owner),
            None => g,
        }
    }
}

/// The graph with the pieces `0..n` of the object `id` forgotten, as
/// `delete_id` forgets each in turn.
pub open spec fn forget_pieces(graph: Map<(u128, usize), Set<GeometryId>>, id: RefID, n: nat) -> Map<(u128, usize), Set<GeometryId>>
    decreases n,
{
    if n == 0 {
        graph
    } else {
        let g = forget_pieces(graph, id, (n - 1) as nat);
        let p = GeometryId { id, index: (n - 1) as usize };
        Map::new(|k: (u128, usize)| g.contains_key(k) && k != key_of(p), |k: (u128, usize)| g[k].remove(p))
    }
}

/// Forgetting the pieces `0..n` of the object `id` takes each of them out
/// of the graph, as a piece that has followers and as a follower, and
/// leaves every other piece and follower as it was.
pub proof fn lemma_forget_pieces(graph: Map<(u128, usize), Set<GeometryId>>, id: RefID, n: nat)
    ensures
        forall|k: (u128, usize)| #[trigger] forget_pieces(graph, id, n).contains_key(k) <==> graph.contains_key(k) && !(k.0 == id
            && k.1 < n),
        forall|k: (u128, usize), g: GeometryId| #[trigger] forget_pieces(graph, id, n).contains_key(k) ==> (#[trigger] forget_pieces(
            graph,
            id,
            n,
        )[k].contains(g) <==> graph[k].contains(g) && !(g.id == id && g.index < n)),
    decreases n,
{
    if n > 0 {
        lemma_forget_pieces(graph, id, (n - 1) as nat);
        let g0 = forget_pieces(graph, id, (n - 1) as nat);
        let p = GeometryId { id, index: (n - 1) as usize };
        assert(forget_pieces(graph, id, n) == Map::new(
            |k: (u128, usize)| g0.contains_key(k) && k != key_of(p),
            |k: (u128, usize)| g0[k].remove(p),
        ));
        assert forall|k: (u128, usize)| #[trigger] forget_pieces(graph, id, n).contains_key(k) <==> graph.contains_key(k) && !(k.0
            == id && k.1 < n) by {
            assert(g0.contains_key(k) <==> graph.contains_key(k) && !(k.0 == id && k.1 < n - 1));
        }
        assert forall|k: (u128, usize), g: GeometryId| #[trigger] forget_pieces(graph, id, n).contains_key(k) implies (
        #[trigger] forget_pieces(graph, id, n)[k].contains(g) <==> graph[k].contains(g) && !(g.id == id && g.index < n)) by {
            assert(g0.contains_key(k));
            assert(g0[k].contains(g) <==> graph[k].contains(g) && !(g.id == id && g.index < n - 1));
        }
    }
}

/// The piece `g`, with the object `from` read as the object `to`.
pub open spec fn renamed(g: GeometryId, from: RefID, to: RefID) -> GeometryId {
    if g.id == from {
        GeometryId { id: to, index: g.index }
    } else {
        g
    }
}

/// The references of a copy: those of the object `from`, each end on the
/// object itself moved to its copy `to`.
pub open spec fn refs_for_copy(refs: Seq<Option<Reference>>, from: RefID, to: RefID) -> Seq<Option<Reference>> {
    refs.map_values(
        |r: Option<Reference>|
            match r {
                Some(x) => Some(Reference { owner: renamed(x.owner, from, to), other: renamed(x.other, from, to) }),
                None => None,
            },
    )
}

/// The references `refs` of the object `from`, moved to its copy `to`.
pub fn copy_refs(refs: &Vec<Option<Reference>>, from: RefID, to: RefID) -> (r: Vec<Option<Reference>>)
    ensures
        r@ == refs_for_copy(refs@, from, to),
{
    let mut out: Vec<Option<Reference>> = Vec::new();
    let mut i: usize = 0;
    while i < refs.len()
        invariant
            i <= refs@.len(),
            out@ == refs_for_copy(refs@.take(i as int), from, to),
        decreases refs@.len() - i,
    {
        let moved = match refs[i] {
            Some(x) => {
                let owner = if x.owner.id == from {
                    GeometryId { id: to, index: x.owner.index }
                } else {
                    x.owner
                };
                let other = if x.other.id == from {
                    GeometryId { id: to, index: x.other.index }
                } else {
                    x.other
                };
                Some(Reference { owner, other })
            },
            None => None,
        };
        out.push(moved);
        proof {
            assert(refs_for_copy(refs@.take(i + 1), from, to) =~= refs_for_copy(refs@.take(i as int), from, to).push(moved));
        }
        i += 1;
    }
    proof {
        assert(refs@.take(refs@.len() as int) =~= refs@);
    }
    out
}

/// What adding a copy gave, without the copy's identifier.
pub open spec fn added_result(r: Result<RefID, DBError>) -> Result<(), DBError> {
    match r {
        Ok(_) => Ok(()),
        Err(e) => Err(e),
    }
}

/// An answer of an object to a refresh that stops the refresh: an error
/// other than `ObjNotFound` (the object is gone) or `ObjLacksTrait` (it has
/// no pieces to offer).
pub open spec fn stops_refresh(res: Result<usize, DBError>) -> bool {
    &&& res is Err
    &&& !(res matches Err(DBError::ObjNotFound))
    &&& !(res matches Err(DBError::ObjLacksTrait))
}

/// Whether a refresh goes on after the answer of an object: it stops at the
/// first answer that is an error other than `ObjNotFound` or
/// `ObjLacksTrait`, and the objects after it are not refreshed.
pub fn refresh_goes_on(answer: &Result<usize, DBError>) -> (r: bool)
    ensures
        r == !stops_refresh(*answer),
{
    match answer {
        Ok(_) => true,
        Err(DBError::ObjNotFound) => true,
        Err(DBError::ObjLacksTrait) => true,
        Err(_) => false,
    }
}

/// The index of the first answer that stops the refresh, or -1.
pub open spec fn first_stop(answers: Seq<(RefID, Result<usize, DBError>)>) -> int
    decreases answers.len(),
{
    if answers.len() == 0 {
        -1
    } else {
        let p = first_stop(answers.drop_last());
        if p >= 0 {
            p
        } else if stops_refresh(answers.last().1) {
            answers.len() - 1
        } else {
            -1
        }
    }
}

/// The pieces `0..n` of each object that answered with its number `n` of
/// results, in the order of the answers.
pub open spec fn refreshed_pieces(answers: Seq<(RefID, Result<usize, DBError>)>) -> Seq<GeometryId>
    decreases answers.len(),
{
    if answers.len() == 0 {
        Seq::empty()
    } else {
        let prev = refreshed_pieces(answers.drop_last());
        let id = answers.last().0;
        match answers.last().1 {
            Ok(n) => prev + Seq::new(n as nat, |i: int| GeometryId { id, index: i as usize }),
            Err(_) => prev,
        }
    }
}

/// The objects that answered that they are gone.
pub open spec fn gone_objects(answers: Seq<(RefID, Result<usize, DBError>)>) -> Set<RefID>
    decreases answers.len(),
{
    if answers.len() == 0 {
        Set::empty()
    } else {
        let prev = gone_objects(answers.drop_last());
        if answers.last().1 matches Err(DBError::ObjNotFound) {
            prev.insert(answers.last().0)
        } else {
            prev
        }
    }
}

/// Once a prefix holds an answer that stops the refresh, the whole list
/// stops at the same answer.
proof fn lemma_first_stop_prefix(answers: Seq<(RefID, Result<usize, DBError>)>, n: int)
    requires
        0 <= n <= answers.len(),
        first_stop(answers.take(n)) >= 0,
    ensures
        first_stop(answers) == first_stop(answers.take(n)),
    decreases answers.len(),
{
    if answers.len() == n {
        assert(answers.take(n) =~= answers);
    } else {
        assert(answers.drop_last().take(n) =~= answers.take(n));
        lemma_first_stop_prefix(answers.drop_last(), n);
    }
}

/// The error of the answer at `k`, taken out of the list.
fn take_error(answers: Vec<(RefID, Result<usize, DBError>)>, k: usize) -> (e: DBError)
    requires
        k < answers@.len(),
        answers@[k as int].1 is Err,
    ensures
        answers@[k as int].1 == Err::<usize, DBError>(e),
{
    let mut list = answers;
    let (_, answer) = list.remove(k);
    match answer {
        Err(e) => e,
        Ok(_) => DBError::ObjLacksTrait,
    }
}

/// The data of one open drawing: its objects with their undo history, and
/// the dependencies between their geometry.
pub struct OperationManager {
    data: DataManager,
    deps: DependencyManager,
}

/// An operation manager, mathematically.
pub struct OpsView {
    pub data: ManagerView,
    pub deps: Map<(u128, usize), Set<GeometryId>>,
}

impl View for OperationManager {
    type V = OpsView;

    closed spec fn view(&self) -> OpsView {
        OpsView { data: self.data@, deps: self.deps@ }
    }
}

/// The objects are finite in number, each is under its identifier, and the
/// dependency graph is finite.
pub open spec fn ops_wf(v: OpsView) -> bool {
    &&& v.data.objects.dom().finite()
    &&& keys_are_ids(v.data.objects)
    &&& v.deps.dom().finite()
}

/// `t` is a state dump of the drawing: the dump of its data, an empty line,
/// the dump of its dependencies and another empty line, each map walked in
/// some order that lists each of its keys once.
pub open spec fn is_ops_text(t: Seq<char>, v: OpsView) -> bool {
    exists|ks: Seq<RefID>, es: Seq<UndoEventID>, dks: Seq<(u128, usize)>, fs: Seq<Seq<GeometryId>>|
        #![trigger lists_keys(ks, v.data.objects), lists_keys(es, v.data.pending), lists_graph(dks, fs, v.deps)]
        lists_keys(ks, v.data.objects) && lists_keys(es, v.data.pending) && lists_graph(dks, fs, v.deps) && t == manager_text(ks, es, v.data)
            + "\n"@ + decimal(dks.len()) + " Dependencies:\n"@ + deps_text(dks, fs) + "\n"@
}

impl OperationManager {
    /// Appends the state dump of the drawing: its data, then its
    /// dependencies.
    #[verifier::spinoff_prover]
    #[verifier::rlimit(30)]
    pub fn debug_state(&self, output: &mut String)
        ensures
            exists|t: Seq<char>| #[trigger] is_ops_text(t, self@) && final(output)@ == old(output)@ + t,
    {
        let ghost start = output@;
        self.data.debug_state(output);
        let ghost after_data = output@;
        let ghost ks = choose|ks: Seq<RefID>, es: Seq<UndoEventID>| #[trigger] lists_keys(ks, self@.data.objects)
            && #[trigger] lists_keys(es, self@.data.pending) && after_data == start + manager_text(ks, es, self@.data);
        output.append("\n");
        let ghost before_deps = output@;
        self.deps.debug_state(output);
        let ghost after_deps = output@;
        let ghost gs = choose|dks: Seq<(u128, usize)>, fs: Seq<Seq<GeometryId>>| #[trigger] lists_graph(dks, fs, self@.deps)
            && after_deps == before_deps + decimal(dks.len()) + " Dependencies:\n"@ + deps_text(dks, fs);
        output.append("\n");
        proof {
            let t = manager_text(ks.0, ks.1, self@.data) + "\n"@ + decimal(gs.0.len()) + " Dependencies:\n"@ + deps_text(gs.0, gs.1)
                + "\n"@;
            assert(output@ =~= start + t);
            assert(is_ops_text(t, self@));
        }
    }
}

impl OperationManager {
    /// Well-formed, in terms of the view.
    pub open spec fn wf(&self) -> bool {
        ops_wf(self@)
    }

    /// No object, no event, no dependency.
    pub fn new() -> (r: OperationManager)
        ensures
            r.wf(),
            r@.data.objects == Map::<RefID, ObjectView>::empty(),
            r@.data.pending == Map::<UndoEventID, EventView>::empty(),
            r@.data.undo.stack == Seq::<EventView>::empty(),
            r@.data.undo.redo_stack == Seq::<EventView>::empty(),
            r@.deps == Map::<(u128, usize), Set<GeometryId>>::empty(),
    {
        OperationManager { data: DataManager::new(), deps: DependencyManager::new() }
    }

    /// How deep the open event is nested and suspended, or `None` where it
    /// is not open.
    pub fn event_depths(&self, event_id: UndoEventID) -> (r: Option<(usize, usize)>)
        ensures
            r is Some == self@.data.pending.contains_key(event_id),
            r matches Some(d) ==> d == (self@.data.pending[event_id].nested, self@.data.pending[event_id].suspended),
    {
        self.data.event_depths(event_id)
    }

    /// A manager holding the objects that `bytes` encode, with no event and
    /// no dependency yet, and the identifiers of those objects.
    pub fn open(bytes: &[u8]) -> (r: Result<(OperationManager, Vec<RefID>), DBError>)
        ensures
            bincode_read_records(bytes@) is None ==> r matches Err(DBError::Other(_)),
            bincode_read_records(bytes@) matches Some(records) ==> {
                &&& add_records(Map::empty(), records).1 ==> (r matches Ok((m, keys)) && {
                    &&& m.wf()
                    &&& m@.data.objects == add_records(Map::empty(), records).0
                    &&& m@.data.pending == Map::<UndoEventID, EventView>::empty()
                    &&& m@.data.undo.stack == Seq::<EventView>::empty()
                    &&& m@.data.undo.redo_stack == Seq::<EventView>::empty()
                    &&& m@.deps == Map::<(u128, usize), Set<GeometryId>>::empty()
                    &&& keys@ == record_ids(records)
                })
                &&& !add_records(Map::empty(), records).1 ==> r matches Err(DBError::Overwrite)
            },
    {
        let (data, keys) = DataManager::open(bytes)?;
        Ok((OperationManager { data, deps: DependencyManager::new() }, keys))
    }

    /// The encoded objects.
    pub fn save(&self) -> (r: Result<Vec<u8>, DBError>)
        ensures
            save_result(self@.data.objects, r),
    {
        self.data.save()
    }

    /// Begins the event, or nests one level deeper into it.
    pub fn begin_undo_event(&mut self, user_id: UserID, event_id: UndoEventID, desc: String) -> (r: Result<(), DBError>)
        requires
            can_begin(old(self)@.data, event_id),
        ensures
            r is Ok,
            begin_effect(old(self)@.data, final(self)@.data, user_id, event_id, desc@),
            final(self)@.deps == old(self)@.deps,
    {
        self.data.begin_undo_event_as(user_id, event_id, desc)
    }

    /// Ends one level of the event.
    pub fn end_undo_event(&mut self, event: UndoEventID) -> (r: Result<(), DBError>)
        ensures
            end_effect(old(self)@.data, final(self)@.data, event, r),
            final(self)@.deps == old(self)@.deps,
    {
        self.data.end_undo_event(event)
    }

    /// Suspends the event one level deeper.
    pub fn suspend_event(&mut self, event_id: UndoEventID) -> (r: Result<(), DBError>)
        requires
            can_suspend(old(self)@.data, event_id),
        ensures
            suspend_effect(old(self)@.data, final(self)@.data, event_id, r),
            final(self)@.deps == old(self)@.deps,
    {
        self.data.suspend_event(event_id)
    }

    /// Lifts one level of suspension from the event.
    pub fn resume_event(&mut self, event_id: UndoEventID) -> (r: Result<(), DBError>)
        ensures
            resume_effect(old(self)@.data, final(self)@.data, event_id, r),
            final(self)@.deps == old(self)@.deps,
    {
        self.data.resume_event(event_id)
    }

    /// Abandons the event and reverts its changes; the result is the set of
    /// objects whose dependants must be brought up to date.
    pub fn cancel_event(&mut self, event_id: UndoEventID) -> (r: Result<HashSet<RefID>, DBError>)
        requires
            old(self).wf(),
        ensures
            final(self).wf(),
            cancel_effect(old(self)@.data, final(self)@.data, event_id, r),
            final(self)@.deps == old(self)@.deps,
    {
        self.data.cancel_event(event_id)
    }

    /// Records the object as it is in the event.
    pub fn take_undo_snapshot(&mut self, event_id: UndoEventID, key: RefID) -> (r: Result<(), DBError>)
        requires
            old(self).wf(),
        ensures
            final(self).wf(),
            snapshot_effect(old(self)@.data, final(self)@.data, event_id, key, r),
            final(self)@.deps == old(self)@.deps,
    {
        self.data.take_undo_snapshot(event_id, key)
    }

    /// Undoes the latest event of the user; the result is the set of objects
    /// whose dependants must be brought up to date.
    pub fn undo_latest(&mut self, user: UserID) -> (r: Result<HashSet<RefID>, DBError>)
        requires
            old(self).wf(),
        ensures
            final(self).wf(),
            undo_effect(old(self)@.data, final(self)@.data, user, r),
            final(self)@.deps == old(self)@.deps,
    {
        self.data.undo_latest(user)
    }

    /// Redoes the latest undone event of the user; the result is the set of
    /// objects whose dependants must be brought up to date.
    pub fn redo_latest(&mut self, user: UserID) -> (r: Result<HashSet<RefID>, DBError>)
        requires
            old(self).wf(),
        ensures
            final(self).wf(),
            redo_effect(old(self)@.data, final(self)@.data, user, r),
            final(self)@.deps == old(self)@.deps,
    {
        self.data.redo_latest(user)
    }

    /// Registers each reference that is there: its owner follows its other
    /// end.
    pub fn register_deps(&mut self, refs: &Vec<Option<Reference>>)
        requires
            old(self).wf(),
        ensures
            final(self).wf(),
            final(self)@.data == old(self)@.data,
            final(self)@.deps == register_refs(old(self)@.deps, refs@),
    {
        let mut i: usize = 0;
        proof {
            assert(refs@.take(0) =~= Seq::<Option<Reference>>::empty());
        }
        while i < refs.len()
            invariant
                self.wf(),
                i <= refs@.len(),
                self@.data == old(self)@.data,
                self@.deps == register_refs(old(self)@.deps, refs@.take(i as int)),
            decreases refs@.len() - i,
        {
            proof {
                assert(refs@.take(i + 1).drop_last() =~= refs@.take(i as int));
                assert(refs@.take(i + 1).last() == refs@[i as int]);
            }
            if let Some(refer) = &refs[i] {
                self.deps.register_sub(&refer.other, refer.owner);
            }
            i += 1;
        }
        proof {
            assert(refs@.take(refs@.len() as int) =~= refs@);
        }
    }

    /// Registers the references of the object `id`, which must be there.
    pub fn add_deps(&mut self, id: RefID, refs: &Vec<Option<Reference>>) -> (r: Result<(), DBError>)
        requires
            old(self).wf(),
        ensures
            final(self).wf(),
            final(self)@.data == old(self)@.data,
            (id == nil_id() || !old(self)@.data.objects.contains_key(id)) ==> {
                &&& r matches Err(DBError::NotFound(_))
                &&& final(self)@.deps == old(self)@.deps
            },
            (id != nil_id() && old(self)@.data.objects.contains_key(id)) ==> {
                &&& r is Ok
                &&& final(self)@.deps == register_refs(old(self)@.deps, refs@)
            },
    {
        match self.data.get_obj(id) {
            Ok(_) => {
                self.register_deps(refs);
                Ok(())
            },
            Err(e) => Err(e),
        }
    }

    /// Makes `sub` no longer follow `publisher`.
    pub fn remove_dep(&mut self, publisher: &GeometryId, sub: &GeometryId)
        requires
            old(self).wf(),
        ensures
            final(self).wf(),
            final(self)@.data == old(self)@.data,
            !old(self)@.deps.contains_key(key_of(*publisher)) ==> final(self)@.deps == old(self)@.deps,
            old(self)@.deps.contains_key(key_of(*publisher)) ==> final(self)@.deps == old(self)@.deps.insert(
                key_of(*publisher),
                old(self)@.deps[key_of(*publisher)].remove(*sub),
            ),
    {
        self.deps.delete_sub(publisher, sub)
    }

    /// Registers the references of the object, then adds it in the event.
    pub fn add_object(&mut self, event: UndoEventID, obj: DataObject, refs: &Vec<Option<Reference>>) -> (r: Result<(), DBError>)
        requires
            old(self).wf(),
        ensures
            final(self).wf(),
            add_effect(old(self)@.data, final(self)@.data, event, obj@, r),
            final(self)@.deps == register_refs(old(self)@.deps, refs@),
    {
        self.register_deps(refs);
        self.data.add_obj(event, obj)
    }

    /// Deletes the object in the event and forgets its pieces `0..num_results`
    /// in the dependency graph, returning the deleted object. Bringing up to
    /// date what followed those pieces is the caller's part: a refresh that
    /// began with the deleted object itself would find it gone (`NotFound`)
    /// and stop, so the deletion succeeds here and the followers are
    /// refreshed from the references found before it.
    pub fn delete_obj(&mut self, event: UndoEventID, id: RefID, num_results: usize) -> (r: Result<DataObject, DBError>)
        requires
            old(self).wf(),
        ensures
            final(self).wf(),
            delete_effect(old(self)@.data, final(self)@.data, event, id, r),
            r is Ok ==> final(self)@.deps == forget_pieces(old(self)@.deps, id, num_results as nat),
            r is Ok ==> forall|i: usize| i < num_results ==> !final(self)@.deps.contains_key(#[trigger] key_of(GeometryId { id, index: i })),
            r is Ok ==> forall|k: (u128, usize), i: usize| i < num_results && final(self)@.deps.contains_key(k)
                ==> !#[trigger] final(self)@.deps[k].contains(GeometryId { id, index: i }),
            r is Err ==> final(self)@.deps == old(self)@.deps,
    {
        let obj = self.data.delete_obj(event, id)?;
        let ghost mid = self@.data;
        let mut i: usize = 0;
        while i < num_results
            invariant
                self.wf(),
                i <= num_results,
                self@.data == mid,
                delete_effect(old(self)@.data, mid, event, id, Ok::<DataObject, DBError>(obj)),
                self@.deps == forget_pieces(old(self)@.deps, id, i as nat),
            decreases num_results - i,
        {
            self.deps.delete_id(&GeometryId { id, index: i });
            i += 1;
        }
        proof {
            lemma_forget_pieces(old(self)@.deps, id, num_results as nat);
        }
        Ok(obj)
    }

    /// Gives the object the bytes `data` in the event.
    pub fn modify_obj(&mut self, event: UndoEventID, id: RefID, data: Vec<u8>) -> (r: Result<(), DBError>)
        requires
            old(self).wf(),
        ensures
            final(self).wf(),
            modify_effect(old(self)@.data, final(self)@.data, event, id, data@, r),
            final(self)@.deps == old(self)@.deps,
    {
        self.data.get_mut_obj(event, id, data)
    }

    /// Gives the object the bytes `data` without recording it.
    pub fn modify_obj_no_undo(&mut self, id: RefID, data: Vec<u8>) -> (r: Result<(), DBError>)
        requires
            old(self).wf(),
        ensures
            final(self).wf(),
            final(self)@.deps == old(self)@.deps,
            final(self)@.data.pending == old(self)@.data.pending,
            final(self)@.data.undo == old(self)@.data.undo,
            (id == nil_id() || !old(self)@.data.objects.contains_key(id)) ==> {
                &&& r matches Err(DBError::NotFound(_))
                &&& final(self)@.data.objects == old(self)@.data.objects
            },
            (id != nil_id() && old(self)@.data.objects.contains_key(id)) ==> {
                &&& r is Ok
                &&& final(self)@.data.objects == old(self)@.data.objects.insert(id, ObjectView { id, data: data@ })
            },
    {
        self.data.get_mut_obj_no_undo(id, data)
    }

    /// A copy of the object.
    pub fn get_obj(&self, id: RefID) -> (r: Result<DataObject, DBError>)
        ensures
            get_result(self@.data.objects, id, r),
    {
        self.data.get_obj(id)
    }

    /// Copies of all the objects, each once.
    pub fn iterate_all(&self) -> (r: Vec<DataObject>)
        requires
            self.wf(),
        ensures
            r@.map_values(|o: DataObject| o.id).no_duplicates(),
            forall|i: int| 0 <= i < r@.len() ==> {
                &&& self@.data.objects.contains_key(#[trigger] r@[i].id)
                &&& r@[i]@ == self@.data.objects[r@[i].id]
            },
            forall|k: RefID| self@.data.objects.contains_key(k) ==> r@.map_values(|o: DataObject| o.id).contains(k),
    {
        self.data.iterate_all()
    }

    /// The references from each of `ids` to everything that follows it.
    pub fn get_all_deps(&self, ids: Vec<GeometryId>) -> (r: IndexSet<Reference>)
        requires
            self.wf(),
        ensures
            deps_result(self@.deps, ids@, ordered_refs(r)),
            searches_result(self@.deps, ids@, ordered_refs(r)),
    {
        self.deps.get_all_deps(ids)
    }

    /// Forgets what follows the pieces of the objects `ids`.
    pub fn delete_ids(&mut self, ids: &HashSet<RefID>)
        requires
            old(self).wf(),
        ensures
            final(self).wf(),
            final(self)@.data == old(self)@.data,
            final(self)@.deps == old(self)@.deps.restrict(old(self)@.deps.dom().filter(|k: (u128, usize)| !ids@.contains(k.0))),
    {
        self.deps.delete_ids(ids)
    }

    /// Copies the object `id` under the identifier `copy_id` with the bytes
    /// `data` (the object with its references cleared) and adds the copy in
    /// the event; then registers the references `refs` of the cleared object
    /// as those of the copy (`refs_for_copy`), as adding an object does. The
    /// result is the copy's identifier. The nil identifier or a missing
    /// object is `NotFound` and changes nothing; a copy that cannot be added
    /// registers nothing.
    pub fn copy_obj_as(&mut self, event: UndoEventID, id: RefID, copy_id: RefID, data: Vec<u8>, refs: &Vec<Option<Reference>>) -> (r: Result<RefID, DBError>)
        requires
            old(self).wf(),
        ensures
            final(self).wf(),
            (id == nil_id() || !old(self)@.data.objects.contains_key(id)) ==> {
                &&& r matches Err(DBError::NotFound(_))
                &&& final(self)@ == old(self)@
            },
            (id != nil_id() && old(self)@.data.objects.contains_key(id)) ==> {
                &&& add_effect(old(self)@.data, final(self)@.data, event, ObjectView { id: copy_id, data: data@ }, added_result(r))
                &&& r matches Ok(k) ==> k == copy_id
            },
            r is Ok ==> final(self)@.deps == register_refs(old(self)@.deps, refs_for_copy(refs@, id, copy_id)),
            r is Err ==> final(self)@.deps == old(self)@.deps,
    {
        let mut copy = self.data.duplicate_obj_as(id, copy_id)?;
        copy.data = data;
        self.data.add_obj(event, copy)?;
        let moved = copy_refs(refs, id, copy_id);
        self.register_deps(&moved);
        Ok(copy_id)
    }

    /// Copies the object `id` under a fresh random identifier with the bytes
    /// `data` and adds the copy in the event, registering the references
    /// `refs` of the cleared object as those of the copy; the result is the
    /// copy's identifier.
    pub fn copy_obj(&mut self, event: UndoEventID, id: RefID, data: Vec<u8>, refs: &Vec<Option<Reference>>) -> (r: Result<RefID, DBError>)
        requires
            old(self).wf(),
        ensures
            final(self).wf(),
            (id == nil_id() || !old(self)@.data.objects.contains_key(id)) ==> {
                &&& r matches Err(DBError::NotFound(_))
                &&& final(self)@ == old(self)@
            },
            (id != nil_id() && old(self)@.data.objects.contains_key(id)) ==> exists|k: RefID|
                #[trigger] add_effect(old(self)@.data, final(self)@.data, event, ObjectView { id: k, data: data@ }, added_result(r))
                && (r matches Ok(c) ==> c == k),
            r matches Ok(k) ==> {
                &&& final(self)@.data.objects == old(self)@.data.objects.insert(k, ObjectView { id: k, data: data@ })
                &&& !old(self)@.data.objects.contains_key(k)
                &&& final(self)@.deps == register_refs(old(self)@.deps, refs_for_copy(refs@, id, k))
            },
            r is Err ==> final(self)@.deps == old(self)@.deps,
    {
        let copy_id = crate::ids::new_v4();
        self.copy_obj_as(event, id, copy_id, data, refs)
    }

    /// Brings the dependency graph in line with what the objects `answers`
    /// name said when they were refreshed: an object that is gone
    /// (`ObjNotFound`) is forgotten in the graph, an object with no pieces
    /// (`ObjLacksTrait`) is passed over, and any other error stops the
    /// refresh before anything changes and is returned. Otherwise the result
    /// is the references from the pieces of the refreshed objects to
    /// everything that follows them, in the graph without the gone objects,
    /// and the set of the gone objects.
    pub fn update_set_from_refs(&mut self, answers: Vec<(RefID, Result<usize, DBError>)>) -> (r: Result<(IndexSet<Reference>, HashSet<RefID>), DBError>)
        requires
            old(self).wf(),
        ensures
            final(self).wf(),
            final(self)@.data == old(self)@.data,
            first_stop(answers@) >= 0 ==> {
                &&& r matches Err(e) && answers@[first_stop(answers@)].1 == Err::<usize, DBError>(e)
                &&& final(self)@.deps == old(self)@.deps
            },
            first_stop(answers@) < 0 ==> (r matches Ok((refs, gone)) && {
                &&& gone@ == gone_objects(answers@)
                &&& final(self)@.deps == old(self)@.deps.restrict(
                    old(self)@.deps.dom().filter(|k: (u128, usize)| !gone_objects(answers@).contains(k.0)),
                )
                &&& deps_result(final(self)@.deps, refreshed_pieces(answers@), ordered_refs(refs))
                &&& searches_result(final(self)@.deps, refreshed_pieces(answers@), ordered_refs(refs))
            }),
    {
        broadcast use vstd::std_specs::hash::group_hash_axioms;
        let ghost all = answers@;
        let mut geom_ids: Vec<GeometryId> = Vec::new();
        let mut to_remove: HashSet<RefID> = HashSet::new();
        let mut k: usize = 0;
        proof {
            assert(all.take(0) =~= Seq::<(RefID, Result<usize, DBError>)>::empty());
        }
        while k < answers.len()
            invariant
                answers@ == all,
                self@ == old(self)@,
                self.wf(),
                k <= all.len(),
                first_stop(all.take(k as int)) < 0,
                geom_ids@ == refreshed_pieces(all.take(k as int)),
                to_remove@ == gone_objects(all.take(k as int)),
            decreases all.len() - k,
        {
            proof {
                assert(all.take(k + 1).drop_last() =~= all.take(k as int));
                assert(all.take(k + 1).last() == all[k as int]);
            }
            let id = answers[k].0;
            let stop = match &answers[k].1 {
                Ok(n) => {
                    let n = *n;
                    let ghost before = geom_ids@;
                    let mut i: usize = 0;
                    while i < n
                        invariant
                            i <= n,
                            geom_ids@ == before + Seq::new(i as nat, |j: int| GeometryId { id, index: j as usize }),
                        decreases n - i,
                    {
                        geom_ids.push(GeometryId { id, index: i });
                        i += 1;
                        proof {
                            assert(geom_ids@ =~= before + Seq::new(i as nat, |j: int| GeometryId { id, index: j as usize }));
                        }
                    }
                    false
                },
                Err(DBError::ObjNotFound) => {
                    to_remove.insert(id);
                    false
                },
                Err(DBError::ObjLacksTrait) => false,
                Err(_) => true,
            };
            if stop {
                proof {
                    assert(stops_refresh(all[k as int].1));
                    assert(first_stop(all.take(k + 1)) == k);
                    lemma_first_stop_prefix(all, k + 1);
                }
                return Err(take_error(answers, k));
            }
            k += 1;
        }
        proof {
            assert(all.take(all.len() as int) =~= all);
        }
        self.deps.delete_ids(&to_remove);
        let refs = self.deps.get_all_deps(geom_ids);
        Ok((refs, to_remove))
    }
}

} // verus!
