//! Copying a group of objects together with the references between them.
use vstd::prelude::*;
use std::collections::HashMap;
use crate::app_state::{AppState, copy_obj_as, only_file_changed};
use crate::data_object::{DBError, ObjectView};
use crate::geometry_kernel::{GeometryId, Reference};
use crate::ids::{RefID, UndoEventID, nil_id};
use crate::operation_manager::{added_result, OpsView, register_refs, refs_for_copy};
use crate::operation_manager::data_manager::add_effect;
use crate::operation_manager::data_manager::undo::{ChangeView, EventView, record};

verus! {

/// The objects to copy, each with the bytes of its copy and the references
/// of the object with its references cleared, mathematically.
pub open spec fn copies_view(copies: Seq<(RefID, Vec<u8>, Vec<Option<Reference>>)>) -> Seq<(RefID, Seq<u8>, Seq<Option<Reference>>)> {
    copies.map_values(|c: (RefID, Vec<u8>, Vec<Option<Reference>>)| (c.0, c.1@, c.2@))
}

/// The identifiers of the objects to copy.
pub open spec fn copied_ids(copies: Seq<(RefID, Seq<u8>, Seq<Option<Reference>>)>) -> Seq<RefID> {
    copies.map_values(|c: (RefID, Seq<u8>, Seq<Option<Reference>>)| c.0)
}

/// `after` holds the objects of `before`, unchanged, and for each object
/// `copies[i].0` a new object `m[copies[i].0]` with the bytes
/// `copies[i].1`, and nothing else; `m` maps exactly the copied objects,
/// each to a copy of its own.
pub open spec fn copied(
    before: Map<RefID, ObjectView>,
    after: Map<RefID, ObjectView>,
    copies: Seq<(RefID, Seq<u8>, Seq<Option<Reference>>)>,
    m: Map<RefID, RefID>,
) -> bool {
    &&& m.dom() == copied_ids(copies).to_set()
    &&& forall|i: int| 0 <= i < copies.len() ==> !before.contains_key(m[#[trigger] copies[i].0])
    &&& forall|i: int| 0 <= i < copies.len() ==> after[m[#[trigger] copies[i].0]] == (ObjectView {
        id: m[copies[i].0],
        data: copies[i].1,
    })
    &&& forall|k: RefID| #[trigger] after.contains_key(k) <==> before.contains_key(k) || exists|i: int|
        0 <= i < copies.len() && m[#[trigger] copies[i].0] == k
    &&& forall|k: RefID| before.contains_key(k) ==> #[trigger] after[k] == before[k]
    &&& forall|i: int, j: int| 0 <= i < j < copies.len() ==> m[#[trigger] copies[i].0] != m[#[trigger] copies[j].0]
}

/// The event with the addition of each of `keys` recorded in turn.
pub open spec fn record_adds(e: EventView, keys: Seq<RefID>) -> EventView
    decreases keys.len(),
{
    if keys.len() == 0 {
        e
    } else {
        record(record_adds(e, keys.drop_last()), ChangeView::Add { key: keys.last() })
    }
}

/// The graph with the references of each copy registered in turn: those of
/// the cleared object `copies[i].0`, moved to its copy `m[copies[i].0]`.
pub open spec fn register_copies(
    graph: Map<(u128, usize), Set<GeometryId>>,
    copies: Seq<(RefID, Seq<u8>, Seq<Option<Reference>>)>,
    m: Map<RefID, RefID>,
) -> Map<(u128, usize), Set<GeometryId>>
    decreases copies.len(),
{
    if copies.len() == 0 {
        graph
    } else {
        let c = copies.last();
        register_refs(register_copies(graph, copies.drop_last(), m), refs_for_copy(c.2, c.0, m[c.0]))
    }
}

/// The drawing `after` is `before` with the copies of `copies` made in the
/// event, in order, the copy of `copies[i].0` being `m[copies[i].0]`: the
/// copied objects are added, their references registered and their
/// additions recorded in the event, which was open; nothing else changed.
pub open spec fn copies_made(
    before: OpsView,
    after: OpsView,
    event: UndoEventID,
    copies: Seq<(RefID, Seq<u8>, Seq<Option<Reference>>)>,
    m: Map<RefID, RefID>,
) -> bool {
    &&& copied(before.data.objects, after.data.objects, copies, m)
    &&& after.data.undo == before.data.undo
    &&& after.deps == register_copies(before.deps, copies, m)
    &&& copies.len() == 0 ==> after.data.pending == before.data.pending
    &&& copies.len() > 0 ==> {
        &&& before.data.pending.contains_key(event)
        &&& after.data.pending == before.data.pending.insert(
            event,
            record_adds(before.data.pending[event], copied_ids(copies).map_values(|x: RefID| m[x])),
        )
    }
}

/// The error `e` with which copying `entry` into the drawing `at` in the
/// event fails: `NotFound` for the nil identifier or a missing object, else
/// `NoUndoEvent` where the event is not open, else `Overwrite` (the
/// identifier drawn for the copy is taken).
pub open spec fn copy_stopped(at: OpsView, event: UndoEventID, entry: (RefID, Seq<u8>, Seq<Option<Reference>>), e: DBError) -> bool {
    if entry.0 == nil_id() || !at.data.objects.contains_key(entry.0) {
        e is NotFound
    } else if !at.data.pending.contains_key(event) {
        e == DBError::NoUndoEvent
    } else {
        e == DBError::Overwrite
    }
}

/// `register_copies` reads `m` only at the copied objects.
proof fn lemma_register_copies_agree(
    graph: Map<(u128, usize), Set<GeometryId>>,
    copies: Seq<(RefID, Seq<u8>, Seq<Option<Reference>>)>,
    m1: Map<RefID, RefID>,
    m2: Map<RefID, RefID>,
)
    requires
        forall|j: int| 0 <= j < copies.len() ==> m1[#[trigger] copies[j].0] == m2[copies[j].0],
    ensures
        register_copies(graph, copies, m1) == register_copies(graph, copies, m2),
    decreases copies.len(),
{
    if copies.len() > 0 {
        let prefix = copies.drop_last();
        assert forall|j: int| 0 <= j < prefix.len() implies m1[#[trigger] prefix[j].0] == m2[prefix[j].0] by {
            assert(prefix[j] == copies[j]);
        }
        lemma_register_copies_agree(graph, prefix, m1, m2);
        assert(copies.last() == copies[copies.len() - 1]);
    }
}

/// The references of an object that point at a piece of a copied object:
/// for each, in order, the index of the reference, the index of the piece
/// pointed at, and the same piece of the copy.
pub open spec fn retargeted(refs: Seq<Option<Reference>>, m: Map<RefID, RefID>) -> Seq<(usize, usize, GeometryId)>
    decreases refs.len(),
{
    if refs.len() == 0 {
        Seq::empty()
    } else {
        let prev = retargeted(refs.drop_last(), m);
        match refs.last() {
            Some(r) => if m.contains_key(r.other.id) {
                prev.push((r.owner.index, r.other.index, GeometryId { id: m[r.other.id], index: r.other.index }))
            } else {
                prev
            },
            None => prev,
        }
    }
}

/// The references among `refs` that point at a copied object, turned to
/// the copy (see `retargeted`); the copy of an object is `orig_to_copy`'s
/// value for it.
pub fn retarget_refs(refs: &Vec<Option<Reference>>, orig_to_copy: &HashMap<RefID, RefID>) -> (r: Vec<(usize, usize, GeometryId)>)
    ensures
        r@ == retargeted(refs@, orig_to_copy@),
{
    broadcast use vstd::std_specs::hash::group_hash_axioms;
    let mut out: Vec<(usize, usize, GeometryId)> = Vec::new();
    let mut i: usize = 0;
    proof {
        assert(refs@.take(0) =~= Seq::<Option<Reference>>::empty());
    }
    while i < refs.len()
        invariant
            i <= refs@.len(),
            out@ == retargeted(refs@.take(i as int), orig_to_copy@),
        decreases refs@.len() - i,
    {
        proof {
            assert(refs@.take(i + 1).drop_last() =~= refs@.take(i as int));
            assert(refs@.take(i + 1).last() == refs@[i as int]);
        }
        if let Some(this_ref) = &refs[i] {
            if let Some(copy_id) = orig_to_copy.get(&this_ref.other.id) {
                out.push((this_ref.owner.index, this_ref.other.index, GeometryId { id: *copy_id, index: this_ref.other.index }));
            }
        }
        i += 1;
    }
    proof {
        assert(refs@.take(refs@.len() as int) =~= refs@);
    }
    out
}

/// Two steps that each change only the drawing under `f` change only it.
proof fn lemma_only_file_trans(a: Map<Seq<char>, OpsView>, b: Map<Seq<char>, OpsView>, c: Map<Seq<char>, OpsView>, f: Seq<char>)
    requires
        only_file_changed(a, b, f),
        only_file_changed(b, c, f),
    ensures
        only_file_changed(a, c, f),
{
    assert(c =~= a.insert(f, c[f]));
}

/// One more copy keeps `copied`: where `after` is `mid` with a new object
/// `k` holding the bytes of the last entry of `copies`, whose object was not
/// copied before, `after` holds the copies of all of `copies`.
proof fn lemma_copied_step(
    before: Map<RefID, ObjectView>,
    mid: Map<RefID, ObjectView>,
    after: Map<RefID, ObjectView>,
    copies: Seq<(RefID, Seq<u8>, Seq<Option<Reference>>)>,
    m: Map<RefID, RefID>,
    k: RefID,
)
    requires
        copies.len() > 0,
        copied(before, mid, copies.drop_last(), m),
        !copied_ids(copies.drop_last()).contains(copies.last().0),
        !mid.contains_key(k),
        after == mid.insert(k, ObjectView { id: k, data: copies.last().1 }),
    ensures
        copied(before, after, copies, m.insert(copies.last().0, k)),
{
    let n = copies.len() - 1;
    let prefix = copies.drop_last();
    let id = copies.last().0;
    let m2 = m.insert(id, k);
    assert(copied_ids(copies) =~= copied_ids(prefix).push(id));
    assert(m2.dom() =~= copied_ids(copies).to_set()) by {
        assert forall|x: RefID| m2.dom().contains(x) <==> copied_ids(copies).to_set().contains(x) by {
            if copied_ids(prefix).contains(x) {
                let j = choose|j: int| 0 <= j < prefix.len() && #[trigger] copied_ids(prefix)[j] == x;
                assert(copied_ids(copies)[j] == x);
            }
            if copied_ids(copies).contains(x) {
                let j = choose|j: int| 0 <= j < copies.len() && #[trigger] copied_ids(copies)[j] == x;
                if j < n {
                    assert(copied_ids(prefix)[j] == x);
                }
            }
            if x == id {
                assert(copied_ids(copies)[n] == x);
            }
        }
    }
    assert forall|i: int| 0 <= i < n implies #[trigger] copies[i].0 != id && m2[copies[i].0] == m[copies[i].0] by {
        assert(prefix[i] == copies[i]);
        assert(copied_ids(prefix)[i] == copies[i].0);
    }
    assert forall|i: int| 0 <= i < n implies mid.contains_key(m[#[trigger] copies[i].0]) by {
        assert(prefix[i] == copies[i]);
        assert(0 <= i < prefix.len() && m[prefix[i].0] == m[copies[i].0]);
    }
    assert forall|i: int| 0 <= i < copies.len() implies !before.contains_key(m2[#[trigger] copies[i].0]) by {
        if i < n {
            assert(prefix[i] == copies[i]);
        } else {
            if before.contains_key(k) {
                assert(mid.contains_key(k));
            }
        }
    }
    assert forall|i: int| 0 <= i < copies.len() implies after[m2[#[trigger] copies[i].0]] == (ObjectView {
        id: m2[copies[i].0],
        data: copies[i].1,
    }) by {
        if i < n {
            assert(prefix[i] == copies[i]);
            assert(mid.contains_key(m[copies[i].0]));
        }
    }
    assert forall|x: RefID| #[trigger] after.contains_key(x) <==> before.contains_key(x) || exists|i: int|
        0 <= i < copies.len() && m2[#[trigger] copies[i].0] == x by {
        if after.contains_key(x) {
            if x == k {
                assert(m2[copies[n].0] == x);
            } else if !before.contains_key(x) {
                assert(mid.contains_key(x));
                let j = choose|j: int| 0 <= j < prefix.len() && m[#[trigger] prefix[j].0] == x;
                assert(prefix[j] == copies[j]);
                assert(m2[copies[j].0] == x);
            }
        }
        if before.contains_key(x) {
            assert(mid.contains_key(x));
        }
        if exists|i: int| 0 <= i < copies.len() && m2[#[trigger] copies[i].0] == x {
            let j = choose|j: int| 0 <= j < copies.len() && m2[#[trigger] copies[j].0] == x;
            if j < n {
                assert(mid.contains_key(m[copies[j].0]));
            }
        }
    }
    assert forall|x: RefID| before.contains_key(x) implies #[trigger] after[x] == before[x] by {
        assert(mid.contains_key(x));
    }
    assert forall|i: int, j: int| 0 <= i < j < copies.len() implies m2[#[trigger] copies[i].0] != m2[#[trigger] copies[j].0] by {
        assert(prefix[i] == copies[i]);
        assert(mid.contains_key(m[copies[i].0]));
        if j < n {
            assert(prefix[j] == copies[j]);
        }
    }
}

/// The object of `copies[j]` is there once the copies before it were made
/// under `ids`: it was there at first, or it is one of those copies.
pub open spec fn present_at(
    objects: Map<RefID, ObjectView>,
    copies: Seq<(RefID, Seq<u8>, Seq<Option<Reference>>)>,
    ids: Seq<RefID>,
    j: int,
) -> bool {
    objects.contains_key(copies[j].0) || ids.take(j).contains(copies[j].0)
}

/// `copies_made` with the copy of `copies[j].0` under `ids[j]`, each
/// object copied being neither nil nor missing when its turn came.
pub open spec fn copies_done(
    before: OpsView,
    after: OpsView,
    event: UndoEventID,
    copies: Seq<(RefID, Seq<u8>, Seq<Option<Reference>>)>,
    ids: Seq<RefID>,
    m: Map<RefID, RefID>,
) -> bool {
    &&& copies_made(before, after, event, copies, m)
    &&& forall|j: int| 0 <= j < copies.len() ==> {
        &&& m[#[trigger] copies[j].0] == ids[j]
        &&& copies[j].0 != nil_id()
        &&& present_at(before.data.objects, copies, ids, j)
    }
}

/// The error `e` with which copying `entry` under `copy_id` into the
/// drawing `at` in the event fails: `NotFound` for the nil identifier or a
/// missing object, else `NoUndoEvent` where the event is not open, else
/// `Overwrite`, `copy_id` being taken.
pub open spec fn copy_stopped_as(at: OpsView, event: UndoEventID, entry: (RefID, Seq<u8>, Seq<Option<Reference>>), copy_id: RefID, e: DBError) -> bool {
    if entry.0 == nil_id() || !at.data.objects.contains_key(entry.0) {
        e is NotFound
    } else if !at.data.pending.contains_key(event) {
        e == DBError::NoUndoEvent
    } else {
        &&& at.data.objects.contains_key(copy_id)
        &&& e == DBError::Overwrite
    }
}

/// Copies, in the event, each object `copies[i].0` of the drawing under
/// `file` under the identifier `ids[i]` with the bytes `copies[i].1` (the
/// object with its references cleared), and registers the references
/// `copies[i].2` of the cleared object as those of the copy; the result
/// maps each object to its copy. The first copy that fails stops the
/// copying, the copies made so far staying in place, and its error is
/// returned (see `copy_stopped_as`).
pub fn copy_objs_as(
    state: &mut AppState,
    file: &String,
    event: UndoEventID,
    copies: Vec<(RefID, Vec<u8>, Vec<Option<Reference>>)>,
    ids: &Vec<RefID>,
) -> (r: Result<HashMap<RefID, RefID>, DBError>)
    requires
        old(state).wf(),
        copied_ids(copies_view(copies@)).no_duplicates(),
        ids@.len() == copies@.len(),
    ensures
        final(state).wf(),
        copies@.len() == 0 ==> (r matches Ok(m) && m@ == Map::<RefID, RefID>::empty() && final(state)@ == old(state)@),
        !old(state)@.contains_key(file@) ==> final(state)@ == old(state)@,
        !old(state)@.contains_key(file@) && copies@.len() > 0 ==> r matches Err(DBError::FileNotFound),
        (exists|i: int| 0 <= i < copies@.len() && #[trigger] copies@[i].0 == nil_id()) ==> r is Err,
        old(state)@.contains_key(file@) ==> {
            &&& only_file_changed(old(state)@, final(state)@, file@)
            &&& r matches Ok(m) ==> copies_done(old(state)@[file@], final(state)@[file@], event, copies_view(copies@), ids@, m@)
            &&& r matches Err(e) ==> exists|k: int, m: Map<RefID, RefID>|
                0 <= k < copies@.len() && #[trigger] copies_done(
                    old(state)@[file@],
                    final(state)@[file@],
                    event,
                    copies_view(copies@).take(k),
                    ids@,
                    m,
                ) && copy_stopped_as(final(state)@[file@], event, copies_view(copies@)[k], ids@[k], e)
            &&& copies@.len() > 0 && (copies@[0].0 == nil_id() || !old(state)@[file@].data.objects.contains_key(copies@[0].0))
                ==> {
                &&& r matches Err(DBError::NotFound(_))
                &&& final(state)@ == old(state)@
            }
            &&& copies@.len() > 0 && copies@[0].0 != nil_id() && old(state)@[file@].data.objects.contains_key(copies@[0].0)
                && !old(state)@[file@].data.pending.contains_key(event) ==> {
                &&& r matches Err(DBError::NoUndoEvent)
                &&& final(state)@ == old(state)@
            }
            &&& (old(state)@[file@].data.pending.contains_key(event) && forall|i: int|
                0 <= i < copies@.len() ==> #[trigger] copies@[i].0 != nil_id()
                    && old(state)@[file@].data.objects.contains_key(copies@[i].0)) ==> (r is Ok || r matches Err(
                DBError::Overwrite,
            ))
        },
{
    broadcast use vstd::std_specs::hash::group_hash_axioms;
    let ghost cv = copies_view(copies@);
    let ghost f = file@;
    let ghost before = old(state)@;
    let mut orig_to_copy: HashMap<RefID, RefID> = HashMap::new();
    let ghost mut made: Seq<RefID> = Seq::empty();
    let mut i: usize = 0;
    proof {
        assert(cv.take(0) =~= Seq::<(RefID, Seq<u8>, Seq<Option<Reference>>)>::empty());
        assert(copied_ids(cv.take(0)).to_set() =~= Set::<RefID>::empty());
        if before.contains_key(f) {
            assert(before.insert(f, before[f]) =~= before);
        }
    }
    while i < copies.len()
        invariant
            state.wf(),
            i <= copies@.len(),
            ids@.len() == copies@.len(),
            cv == copies_view(copies@),
            f == file@,
            before == old(state)@,
            copied_ids(cv).no_duplicates(),
            i == 0 ==> state@ == before,
            i == 0 ==> orig_to_copy@ == Map::<RefID, RefID>::empty(),
            !before.contains_key(f) ==> state@ == before,
            before.contains_key(f) ==> {
                &&& only_file_changed(before, state@, f)
                &&& state@[f].data.undo == before[f].data.undo
                &&& state@[f].data.pending.dom() == before[f].data.pending.dom()
                &&& state@[f].deps == register_copies(before[f].deps, cv.take(i as int), orig_to_copy@)
                &&& copied(before[f].data.objects, state@[f].data.objects, cv.take(i as int), orig_to_copy@)
            },
            i > 0 ==> before.contains_key(f),
            i > 0 ==> before[f].data.pending.contains_key(event),
            made.len() == i,
            i > 0 ==> before[f].data.objects.contains_key(copies@[0].0),
            forall|j: int| 0 <= j < i ==> #[trigger] made[j] == orig_to_copy@[cv[j].0],
            forall|j: int| 0 <= j < i ==> #[trigger] made[j] == ids@[j],
            i > 0 ==> state@[f].data.pending == before[f].data.pending.insert(event, record_adds(before[f].data.pending[event], made)),
            forall|j: int| 0 <= j < i ==> #[trigger] copies@[j].0 != nil_id(),
            before.contains_key(f) ==> forall|j: int| 0 <= j < i ==> #[trigger] present_at(before[f].data.objects, cv, ids@, j),
        decreases copies@.len() - i,
    {
        let id = copies[i].0;
        let copy_id = ids[i];
        let data = copies[i].1.clone();
        let ghost prev = state@;
        let ghost prev_map = orig_to_copy@;
        proof {
            assert(cv[i as int] == (id, data@, copies@[i as int].2@));
        }
        let ghost data_view = data@;
        let copied_now = copy_obj_as(state, file, event, id, copy_id, data, &copies[i].2);
        proof {
            if before.contains_key(f) {
                lemma_only_file_trans(before, prev, state@, f);
            }
        }
        match copied_now {
            Ok(_) => {
                proof {
                    let m2 = prev_map.insert(id, copy_id);
                    assert(cv.take(i + 1).drop_last() =~= cv.take(i as int));
                    assert(cv.take(i + 1).last() == cv[i as int]);
                    assert(!copied_ids(cv.take(i as int)).contains(id)) by {
                        if copied_ids(cv.take(i as int)).contains(id) {
                            let j = choose|j: int| 0 <= j < i && #[trigger] copied_ids(cv.take(i as int))[j] == id;
                            assert(copied_ids(cv)[j] == copied_ids(cv)[i as int]);
                        }
                    }
                    assert(id != nil_id() && prev[f].data.objects.contains_key(id));
                    assert(present_at(before[f].data.objects, cv, ids@, i as int)) by {
                        if !before[f].data.objects.contains_key(id) {
                            let j = choose|j: int| 0 <= j < cv.take(i as int).len() && prev_map[#[trigger] cv.take(i as int)[j].0] == id;
                            assert(made[j] == ids@[j]);
                            assert(ids@.take(i as int)[j] == id);
                        }
                    }
                    lemma_copied_step(
                        before[f].data.objects,
                        prev[f].data.objects,
                        state@[f].data.objects,
                        cv.take(i + 1),
                        prev_map,
                        copy_id,
                    );
                    assert forall|j: int| 0 <= j < cv.take(i as int).len() implies prev_map[#[trigger] cv.take(i as int)[j].0]
                        == m2[cv.take(i as int)[j].0] by {
                        assert(copied_ids(cv)[j] == cv[j].0);
                        assert(copied_ids(cv)[i as int] == cv[i as int].0);
                    }
                    lemma_register_copies_agree(before[f].deps, cv.take(i as int), prev_map, m2);
                    assert(state@[f].deps == register_copies(before[f].deps, cv.take(i + 1), m2));
                    assert(state@[f].data.pending.dom() =~= before[f].data.pending.dom());
                    assert(prev[f].data.pending.contains_key(event));
                    assert(state@[f].data.pending == prev[f].data.pending.insert(
                        event,
                        record(prev[f].data.pending[event], ChangeView::Add { key: copy_id }),
                    ));
                    let made2 = made.push(copy_id);
                    assert(made2.drop_last() =~= made);
                    if i == 0 {
                        assert(made =~= Seq::<RefID>::empty());
                    }
                    let e0 = before[f].data.pending[event];
                    assert(record_adds(e0, made2) == record(record_adds(e0, made), ChangeView::Add { key: copy_id }));
                    if i == 0 {
                        assert(record_adds(e0, made) == e0);
                        assert(prev[f].data.pending[event] == e0);
                    } else {
                        assert(prev[f].data.pending[event] == record_adds(e0, made));
                    }
                    assert(state@[f].data.pending =~= before[f].data.pending.insert(event, record_adds(e0, made2)));
                    assert forall|j: int| 0 <= j < i + 1 implies #[trigger] made2[j] == m2[cv[j].0] by {
                        if j < i {
                            assert(copied_ids(cv)[j] == cv[j].0);
                            assert(copied_ids(cv)[i as int] == cv[i as int].0);
                        }
                    }
                    made = made2;
                }
                orig_to_copy.insert(id, copy_id);
            },
            Err(e) => {
                proof {
                    if before.contains_key(f) {
                        assert(state@[f] == prev[f]);
                        assert(state@ =~= prev);
                        let ct = cv.take(i as int);
                        if i > 0 {
                            assert(made =~= copied_ids(ct).map_values(|x: RefID| orig_to_copy@[x]));
                        }
                        assert(copies_made(before[f], state@[f], event, ct, orig_to_copy@));
                        assert forall|j: int| 0 <= j < ct.len() implies {
                            &&& orig_to_copy@[#[trigger] ct[j].0] == ids@[j]
                            &&& ct[j].0 != nil_id()
                            &&& present_at(before[f].data.objects, ct, ids@, j)
                        } by {
                            assert(made[j] == ids@[j]);
                            assert(present_at(before[f].data.objects, cv, ids@, j));
                        }
                        assert(copies_done(before[f], state@[f], event, ct, ids@, orig_to_copy@));
                        assert(copy_stopped_as(state@[f], event, cv[i as int], ids@[i as int], e));
                    }
                }
                return Err(e);
            },
        }
        i += 1;
    }
    proof {
        assert(cv.take(cv.len() as int) =~= cv);
        if i > 0 {
            assert(made =~= copied_ids(cv).map_values(|x: RefID| orig_to_copy@[x]));
        }
        if before.contains_key(f) {
            assert forall|j: int| 0 <= j < cv.len() implies {
                &&& orig_to_copy@[#[trigger] cv[j].0] == ids@[j]
                &&& cv[j].0 != nil_id()
                &&& present_at(before[f].data.objects, cv, ids@, j)
            } by {
                assert(made[j] == ids@[j]);
            }
        }
    }
    Ok(orig_to_copy)
}

/// Copies, in the event, each object `copies[i].0` of the drawing under
/// `file` under a fresh random identifier with the bytes `copies[i].1` (the
/// object with its references cleared), and registers the references
/// `copies[i].2` of the cleared object as those of the copy; the result
/// maps each object to its copy (see `copy_objs_as`). The first copy that
/// fails stops the copying, the copies made so far staying in place, and
/// its error is returned (see `copy_stopped`). With every object there and
/// the event open, the only possible error is an identifier drawn at random
/// that is already taken (`Overwrite`).
pub fn copy_objs(state: &mut AppState, file: &String, event: UndoEventID, copies: Vec<(RefID, Vec<u8>, Vec<Option<Reference>>)>) -> (r: Result<HashMap<RefID, RefID>, DBError>)
    requires
        old(state).wf(),
        copied_ids(copies_view(copies@)).no_duplicates(),
    ensures
        final(state).wf(),
        copies@.len() == 0 ==> (r matches Ok(m) && m@ == Map::<RefID, RefID>::empty() && final(state)@ == old(state)@),
        !old(state)@.contains_key(file@) ==> final(state)@ == old(state)@,
        !old(state)@.contains_key(file@) && copies@.len() > 0 ==> r matches Err(DBError::FileNotFound),
        (exists|i: int| 0 <= i < copies@.len() && #[trigger] copies@[i].0 == nil_id()) ==> r is Err,
        old(state)@.contains_key(file@) ==> {
            &&& only_file_changed(old(state)@, final(state)@, file@)
            &&& r matches Ok(m) ==> copies_made(old(state)@[file@], final(state)@[file@], event, copies_view(copies@), m@)
            &&& r matches Err(e) ==> exists|k: int, m: Map<RefID, RefID>|
                0 <= k < copies@.len() && #[trigger] copies_made(
                    old(state)@[file@],
                    final(state)@[file@],
                    event,
                    copies_view(copies@).take(k),
                    m,
                ) && copy_stopped(final(state)@[file@], event, copies_view(copies@)[k], e)
            &&& copies@.len() > 0 && (copies@[0].0 == nil_id() || !old(state)@[file@].data.objects.contains_key(copies@[0].0))
                ==> {
                &&& r matches Err(DBError::NotFound(_))
                &&& final(state)@ == old(state)@
            }
            &&& copies@.len() > 0 && copies@[0].0 != nil_id() && old(state)@[file@].data.objects.contains_key(copies@[0].0)
                && !old(state)@[file@].data.pending.contains_key(event) ==> {
                &&& r matches Err(DBError::NoUndoEvent)
                &&& final(state)@ == old(state)@
            }
            &&& (old(state)@[file@].data.pending.contains_key(event) && forall|i: int|
                0 <= i < copies@.len() ==> #[trigger] copies@[i].0 != nil_id()
                    && old(state)@[file@].data.objects.contains_key(copies@[i].0)) ==> (r is Ok || r matches Err(
                DBError::Overwrite,
            ))
        },
{
    let mut ids: Vec<RefID> = Vec::new();
    let mut i: usize = 0;
    while i < copies.len()
        invariant
            i <= copies@.len(),
            ids@.len() == i,
        decreases copies@.len() - i,
    {
        ids.push(crate::ids::new_v4());
        i += 1;
    }
    let ghost cv = copies_view(copies@);
    let ghost before = old(state)@;
    let ghost f = file@;
    let r = copy_objs_as(state, file, event, copies, &ids);
    proof {
        if before.contains_key(f) {
            if r is Err {
                let e = r->Err_0;
                let (k, m) = choose|k: int, m: Map<RefID, RefID>|
                    0 <= k < cv.len() && #[trigger] copies_done(before[f], state@[f], event, cv.take(k), ids@, m)
                        && copy_stopped_as(state@[f], event, cv[k], ids@[k], e);
                assert(copies_made(before[f], state@[f], event, cv.take(k), m));
                assert(copy_stopped(state@[f], event, cv[k], e));
            }
        }
    }
    r
}

} // verus!
