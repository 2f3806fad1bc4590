//! The objects of one drawing, kept by identifier.
use vstd::prelude::*;
use ccl::dhashmap::DHashMap;
use crate::data_object::{DBError, DataObject, ObjectView};
use crate::ids::{RefID, nil_id};
use super::undo::{Change, ChangeView, EventView, UndoEvent, lists_keys};
use crate::text::{decimal, push_decimal, uuid_text, push_uuid};

verus! {

/// The concurrent map that holds the objects of a database.
pub type ObjectMap = DHashMap<u128, DataObject>;

/// What the object map of a database holds: each key with its object.
pub uninterp spec fn db_entries(m: ObjectMap) -> Map<u128, ObjectView>;

/// An empty map, from `DHashMap::default`.
///
/// Trusted: `default` builds a power-of-two number of empty sub-maps.
#[verifier::external_body]
fn db_map_new() -> (r: ObjectMap)
    ensures
        db_entries(r).dom() == Set::<u128>::empty(),
{
    DHashMap::default()
}

/// `DHashMap::insert`: the key now maps to the value, whatever it held.
///
/// Trusted: `insert` writes the pair into the sub-map that the key hashes to,
/// replacing the value of an equal key.
#[verifier::external_body]
fn db_map_insert(m: &mut ObjectMap, key: u128, value: DataObject)
    ensures
        db_entries(*final(m)) == db_entries(*old(m)).insert(key, value@),
{
    m.insert(key, value);
}

/// `DHashMap::contains_key`.
///
/// Trusted: true exactly when the key is in the map.
#[verifier::external_body]
fn db_map_contains(m: &ObjectMap, key: u128) -> (r: bool)
    ensures
        r == db_entries(*m).contains_key(key),
{
    m.contains_key(&key)
}

/// `DHashMap::get`, handing back a copy of the value.
///
/// Trusted: `get` gives a guard on the value of the key, or `None` when the
/// key is absent; the copy is made by `DataObject::duplicate`.
#[verifier::external_body]
fn db_map_get(m: &ObjectMap, key: u128) -> (r: Option<DataObject>)
    ensures
        r is Some == db_entries(*m).contains_key(key),
        r matches Some(obj) ==> obj@ == db_entries(*m)[key],
{
    m.get(&key).map(|obj| obj.duplicate())
}

/// `DHashMap::remove`, handing back the removed value.
///
/// Trusted: `remove` takes the entry of the key out of its sub-map and
/// returns it, or returns `None` when the key is absent.
#[verifier::external_body]
fn db_map_remove(m: &mut ObjectMap, key: u128) -> (r: Option<DataObject>)
    ensures
        db_entries(*final(m)) == db_entries(*old(m)).remove(key),
        r is Some == db_entries(*old(m)).contains_key(key),
        r matches Some(obj) ==> obj@ == db_entries(*old(m))[key],
{
    m.remove(&key).map(|pair| pair.1)
}

/// The keys of the map, from `DHashMap::iter`.
///
/// Trusted: the iterator visits every entry of every sub-map once; the order
/// depends on the hashes and is left open.
#[verifier::external_body]
fn db_map_keys(m: &ObjectMap) -> (r: Vec<u128>)
    ensures
        r@.no_duplicates(),
        r@.to_set() == db_entries(*m).dom(),
{
    m.iter().map(|entry| *entry.key()).collect()
}

/// 256 to the power `k`.
pub open spec fn pow256(k: nat) -> nat
    decreases k,
{
    if k == 0 {
        1
    } else {
        256 * pow256((k - 1) as nat)
    }
}

/// The `k` low bytes of `n`, least significant first.
pub open spec fn le_bytes(n: nat, k: nat) -> Seq<u8>
    decreases k,
{
    if k == 0 {
        Seq::empty()
    } else {
        seq![(n % 256) as u8] + le_bytes(n / 256, (k - 1) as nat)
    }
}

/// How `bincode` 1 writes one (identifier, bytes) record with its default
/// functions (little-endian, integers at their full size): the identifier
/// in 16 bytes, the number of bytes in 8, then the bytes.
pub open spec fn record_bytes(rec: (u128, Seq<u8>)) -> Seq<u8> {
    le_bytes(rec.0 as nat, 16) + le_bytes(rec.1.len(), 8) + rec.1
}

/// The records written one after another.
pub open spec fn records_bytes(records: Seq<(u128, Seq<u8>)>) -> Seq<u8>
    decreases records.len(),
{
    if records.len() == 0 {
        Seq::empty()
    } else {
        record_bytes(records[0]) + records_bytes(records.drop_first())
    }
}

/// The bytes that `bincode` 1 makes of a list of records: the number of
/// records in 8 bytes, then the records.
pub open spec fn bincode_records(records: Seq<(u128, Seq<u8>)>) -> Seq<u8> {
    le_bytes(records.len(), 8) + records_bytes(records)
}

/// The list, and each list of bytes in it, is short enough for its length
/// to be written in 8 bytes.
pub open spec fn fits(records: Seq<(u128, Seq<u8>)>) -> bool {
    &&& records.len() < pow256(8)
    &&& forall|i: int| 0 <= i < records.len() ==> (#[trigger] records[i]).1.len() < pow256(8)
}

/// `bytes` begins with the encoding of `records`.
pub open spec fn begins_with(bytes: Seq<u8>, records: Seq<(u128, Seq<u8>)>) -> bool {
    &&& fits(records)
    &&& bincode_records(records).len() <= bytes.len()
    &&& bytes.subrange(0, bincode_records(records).len() as int) == bincode_records(records)
}

/// The list of records that `bincode` 1 reads from `bytes`: the records
/// whose encoding the bytes begin with (what follows is left unread), or
/// `None` where the bytes begin with no such encoding.
pub open spec fn bincode_read_records(bytes: Seq<u8>) -> Option<Seq<(u128, Seq<u8>)>> {
    if exists|records: Seq<(u128, Seq<u8>)>| #[trigger] begins_with(bytes, records) {
        Some(choose|records: Seq<(u128, Seq<u8>)>| #[trigger] begins_with(bytes, records))
    } else {
        None
    }
}

proof fn lemma_le_len(n: nat, k: nat)
    ensures
        le_bytes(n, k).len() == k,
    decreases k,
{
    if k > 0 {
        lemma_le_len(n / 256, (k - 1) as nat);
    }
}

/// A number below `256^k` is given back by its `k` low bytes.
proof fn lemma_le_inj(a: nat, b: nat, k: nat)
    requires
        a < pow256(k),
        b < pow256(k),
        le_bytes(a, k) == le_bytes(b, k),
    ensures
        a == b,
    decreases k,
{
    if k > 0 {
        let p = pow256((k - 1) as nat);
        assert(le_bytes(a, k)[0] == (a % 256) as u8);
        assert(le_bytes(b, k)[0] == (b % 256) as u8);
        assert((a % 256) as u8 == a % 256);
        assert((b % 256) as u8 == b % 256);
        assert(a % 256 == b % 256);
        assert(le_bytes(a / 256, (k - 1) as nat) =~= le_bytes(a, k).drop_first());
        assert(le_bytes(b / 256, (k - 1) as nat) =~= le_bytes(b, k).drop_first());
        assert(a / 256 < p) by (nonlinear_arith)
            requires
                a < 256 * p,
        ;
        assert(b / 256 < p) by (nonlinear_arith)
            requires
                b < 256 * p,
        ;
        lemma_le_inj(a / 256, b / 256, (k - 1) as nat);
        assert(a == 256 * (a / 256) + a % 256) by (nonlinear_arith);
        assert(b == 256 * (b / 256) + b % 256) by (nonlinear_arith);
    }
}

proof fn lemma_pow256_bounds()
    ensures
        pow256(8) == 0x1_0000_0000_0000_0000,
        pow256(16) == 0x1_0000_0000_0000_0000_0000_0000_0000_0000,
{
    reveal_with_fuel(pow256, 17);
}

/// Records written one after another, followed by anything, are read back
/// one by one: two lists of the same length whose writings begin two equal
/// byte lists are equal, and so is what follows them.
proof fn lemma_records_unique(r1: Seq<(u128, Seq<u8>)>, r2: Seq<(u128, Seq<u8>)>, x: Seq<u8>, y: Seq<u8>)
    requires
        fits(r1),
        fits(r2),
        r1.len() == r2.len(),
        records_bytes(r1) + x == records_bytes(r2) + y,
    ensures
        r1 == r2,
        x == y,
    decreases r1.len(),
{
    if r1.len() == 0 {
        assert(records_bytes(r1) =~= Seq::<u8>::empty());
        assert(records_bytes(r2) =~= Seq::<u8>::empty());
        assert(x =~= records_bytes(r1) + x);
        assert(y =~= records_bytes(r2) + y);
        assert(r1 =~= r2);
    } else {
        lemma_pow256_bounds();
        let (a, b) = (r1[0], r2[0]);
        let s = records_bytes(r1) + x;
        lemma_le_len(a.0 as nat, 16);
        lemma_le_len(b.0 as nat, 16);
        lemma_le_len(a.1.len(), 8);
        lemma_le_len(b.1.len(), 8);
        let t1 = records_bytes(r1.drop_first()) + x;
        let t2 = records_bytes(r2.drop_first()) + y;
        assert(s =~= le_bytes(a.0 as nat, 16) + (le_bytes(a.1.len(), 8) + (a.1 + t1)));
        assert(s =~= le_bytes(b.0 as nat, 16) + (le_bytes(b.1.len(), 8) + (b.1 + t2)));
        assert(s.subrange(0, 16) =~= le_bytes(a.0 as nat, 16));
        assert(s.subrange(0, 16) =~= le_bytes(b.0 as nat, 16));
        lemma_le_inj(a.0 as nat, b.0 as nat, 16);
        assert(s.subrange(16, 24) =~= le_bytes(a.1.len(), 8));
        assert(s.subrange(16, 24) =~= le_bytes(b.1.len(), 8));
        assert(r1[0].1.len() < pow256(8));
        assert(r2[0].1.len() < pow256(8));
        lemma_le_inj(a.1.len(), b.1.len(), 8);
        let n = a.1.len() as int;
        assert(s.subrange(24, 24 + n) =~= a.1);
        assert(s.subrange(24, 24 + n) =~= b.1);
        assert(s.subrange(24 + n, s.len() as int) =~= t1);
        assert(s.subrange(24 + n, s.len() as int) =~= t2);
        assert forall|i: int| 0 <= i < r1.drop_first().len() implies (#[trigger] r1.drop_first()[i]).1.len() < pow256(8) by {
            assert(r1.drop_first()[i] == r1[i + 1]);
        }
        assert forall|i: int| 0 <= i < r2.drop_first().len() implies (#[trigger] r2.drop_first()[i]).1.len() < pow256(8) by {
            assert(r2.drop_first()[i] == r2[i + 1]);
        }
        lemma_records_unique(r1.drop_first(), r2.drop_first(), x, y);
        assert(r1 =~= seq![a] + r1.drop_first());
        assert(r2 =~= seq![b] + r2.drop_first());
    }
}

/// Reading what `bincode` wrote gives back the records that were written.
pub proof fn lemma_read_written(records: Seq<(u128, Seq<u8>)>)
    requires
        fits(records),
    ensures
        bincode_read_records(bincode_records(records)) == Some(records),
{
    let bytes = bincode_records(records);
    assert(bytes.subrange(0, bytes.len() as int) =~= bytes);
    assert(begins_with(bytes, records));
    let c = choose|c: Seq<(u128, Seq<u8>)>| #[trigger] begins_with(bytes, c);
    let enc = bincode_records(c);
    let rest = bytes.subrange(enc.len() as int, bytes.len() as int);
    assert(bytes =~= enc + rest);
    lemma_pow256_bounds();
    lemma_le_len(c.len(), 8);
    lemma_le_len(records.len(), 8);
    assert(bytes.subrange(0, 8) =~= le_bytes(c.len(), 8));
    assert(bytes.subrange(0, 8) =~= le_bytes(records.len(), 8));
    lemma_le_inj(c.len(), records.len(), 8);
    assert(records_bytes(c) + rest =~= bytes.subrange(8, bytes.len() as int));
    assert(records_bytes(records) + Seq::<u8>::empty() =~= bytes.subrange(8, bytes.len() as int));
    lemma_records_unique(c, records, rest, Seq::empty());
}

/// The records, mathematically.
pub open spec fn records_view(records: Seq<(u128, Vec<u8>)>) -> Seq<(u128, Seq<u8>)> {
    records.map_values(|rec: (u128, Vec<u8>)| (rec.0, rec.1@))
}

/// `bincode::serialize` of a list of (identifier, bytes) records.
///
/// Trusted: it succeeds (with the default functions there is no size
/// limit, every length is known and 128-bit integers are supported, so no
/// error path of `serialize` is taken on such a list), and the bytes are
/// those that `bincode_records` describes: little-endian, integers at their
/// full size, each length as 8 bytes. An error, which does not occur, would
/// be reported as `Other` with its text.
#[verifier::external_body]
fn encode_records(records: &Vec<(u128, Vec<u8>)>) -> (r: Result<Vec<u8>, DBError>)
    ensures
        r is Ok,
        r matches Ok(bytes) ==> bytes@ == bincode_records(records_view(records@)),
{
    bincode::serialize(records).map_err(|e| DBError::Other(format!("{:?}", e)))
}

/// `bincode::deserialize` of a list of (identifier, bytes) records.
///
/// Trusted: with the default functions (trailing bytes allowed) it reads
/// the list whose encoding, as `bincode_records` describes it, the bytes
/// begin with, and fails where they begin with no such encoding (they end
/// before a length, an identifier or the bytes a length announces); the
/// failure is reported as `Other` with the text of bincode's error.
#[verifier::external_body]
fn decode_records(bytes: &[u8]) -> (r: Result<Vec<(u128, Vec<u8>)>, DBError>)
    ensures
        r is Ok == bincode_read_records(bytes@) is Some,
        r matches Ok(records) ==> bincode_read_records(bytes@) == Some(records_view(records@)),
        r is Err ==> r matches Err(DBError::Other(_)),
{
    bincode::deserialize::<Vec<(u128, Vec<u8>)>>(bytes).map_err(|e| DBError::Other(format!("{:?}", e)))
}

/// The identifiers of the records, in order.
pub open spec fn record_ids(records: Seq<(u128, Seq<u8>)>) -> Seq<u128> {
    records.map_values(|rec: (u128, Seq<u8>)| rec.0)
}

/// The records list each object of `db` once, as its identifier and bytes.
pub open spec fn lists_db(records: Seq<(u128, Seq<u8>)>, db: Map<RefID, ObjectView>) -> bool {
    &&& record_ids(records).no_duplicates()
    &&& forall|i: int| 0 <= i < records.len() ==> {
        &&& db.contains_key(#[trigger] records[i].0)
        &&& db[records[i].0].data == records[i].1
    }
    &&& forall|k: RefID| db.contains_key(k) ==> record_ids(records).contains(k)
}

/// Adds the records to `db` in order, as `FileDatabase::open` does: the
/// database at the end and whether every record could be added. A record
/// whose identifier is already there stops the adding.
pub open spec fn add_records(db: Map<RefID, ObjectView>, records: Seq<(u128, Seq<u8>)>) -> (Map<RefID, ObjectView>, bool)
    decreases records.len(),
{
    if records.len() == 0 {
        (db, true)
    } else {
        let prev = add_records(db, records.drop_last());
        let rec = records.last();
        if !prev.1 || prev.0.contains_key(rec.0) {
            (prev.0, false)
        } else {
            (prev.0.insert(rec.0, ObjectView { id: rec.0, data: rec.1 }), true)
        }
    }
}

proof fn lemma_add_records_listed(records: Seq<(u128, Seq<u8>)>, db: Map<RefID, ObjectView>, k: int)
    requires
        lists_db(records, db),
        keys_are_ids(db),
        0 <= k <= records.len(),
    ensures
        add_records(Map::empty(), records.take(k)).1,
        add_records(Map::empty(), records.take(k)).0 == db.restrict(
            Set::new(|x: u128| record_ids(records).take(k).contains(x)),
        ),
    decreases k,
{
    let ids = record_ids(records);
    if k == 0 {
        assert(db.restrict(Set::new(|x: u128| ids.take(0).contains(x))) =~= Map::empty());
    } else {
        lemma_add_records_listed(records, db, k - 1);
        let t = records.take(k);
        assert(t.drop_last() =~= records.take(k - 1));
        assert(t.last() == records[k - 1]);
        let prev_ids = Set::new(|x: u128| ids.take(k - 1).contains(x));
        let new_ids = Set::new(|x: u128| ids.take(k).contains(x));
        let key = records[k - 1].0;
        assert(ids[k - 1] == key);
        assert(!prev_ids.contains(key)) by {
            if ids.take(k - 1).contains(key) {
                let j = choose|j: int| 0 <= j < k - 1 && #[trigger] ids.take(k - 1)[j] == key;
                assert(ids[j] == ids[k - 1]);
            }
        }
        assert(new_ids =~= prev_ids.insert(key)) by {
            assert forall|x: u128| new_ids.contains(x) <==> prev_ids.insert(key).contains(x) by {
                if ids.take(k).contains(x) {
                    let j = choose|j: int| 0 <= j < k && #[trigger] ids.take(k)[j] == x;
                    if j < k - 1 {
                        assert(ids.take(k - 1)[j] == x);
                    }
                }
                if ids.take(k - 1).contains(x) {
                    let j = choose|j: int| 0 <= j < k - 1 && #[trigger] ids.take(k - 1)[j] == x;
                    assert(ids.take(k)[j] == x);
                }
                if x == key {
                    assert(ids.take(k)[k - 1] == x);
                }
            }
        }
        assert(db.contains_key(key));
        assert(db[key] == ObjectView { id: key, data: records[k - 1].1 });
        assert(db.restrict(prev_ids).insert(key, db[key]) =~= db.restrict(new_ids));
    }
}

proof fn lemma_add_records_stop(db: Map<RefID, ObjectView>, records: Seq<(u128, Seq<u8>)>, i: int, j: int)
    requires
        0 <= i < j <= records.len(),
        !add_records(db, records.take(i + 1)).1,
    ensures
        add_records(db, records.take(j)) == add_records(db, records.take(i + 1)),
    decreases j - i,
{
    if j > i + 1 {
        lemma_add_records_stop(db, records, i, j - 1);
        assert(records.take(j).drop_last() =~= records.take(j - 1));
    }
}

/// Opening what saving wrote gives back the database that was saved: the
/// records that `save` lists, added in order to an empty database, rebuild it
/// with every record added.
pub proof fn lemma_open_after_save(records: Seq<(u128, Seq<u8>)>, db: Map<RefID, ObjectView>)
    requires
        lists_db(records, db),
        keys_are_ids(db),
    ensures
        add_records(Map::empty(), records) == (db, true),
{
    lemma_add_records_listed(records, db, records.len() as int);
    assert(records.take(records.len() as int) =~= records);
    let ids = record_ids(records);
    assert(ids.take(records.len() as int) =~= ids);
    let all = Set::new(|x: u128| ids.take(records.len() as int).contains(x));
    assert(db.restrict(all) =~= db);
}

/// Every object is stored under its own identifier.
pub open spec fn keys_are_ids(db: Map<RefID, ObjectView>) -> bool {
    forall|k: RefID| #[trigger] db.contains_key(k) ==> db[k].id == k
}

/// Unfolds `keys_are_ids`.
pub proof fn lemma_keys_are_ids(db: Map<RefID, ObjectView>)
    requires
        keys_are_ids(db),
    ensures
        forall|k: RefID| #[trigger] db.contains_key(k) ==> db[k].id == k,
{
}

/// Reverts one recorded change on `db`: the database after the revert and
/// the change that would redo it, or `None` where the object that the change
/// needs is missing.
pub open spec fn undo_step(db: Map<RefID, ObjectView>, c: ChangeView) -> Option<(Map<RefID, ObjectView>, ChangeView)> {
    match c {
        ChangeView::Add { key } => if db.contains_key(key) {
            Some((db.remove(key), ChangeView::Delete { obj: db[key] }))
        } else {
            None
        },
        ChangeView::Modify { obj } => if db.contains_key(obj.id) {
            Some((db.insert(obj.id, obj), ChangeView::Modify { obj: db[obj.id] }))
        } else {
            None
        },
        ChangeView::Delete { obj } => Some((db.insert(obj.id, obj), ChangeView::Add { key: obj.id })),
    }
}

/// Reverts the changes of an event, last first, as `FileDatabase::undo` does:
/// the database at the end, the redo changes in the order they were made, and
/// whether every change could be reverted. A revert that fails stops there,
/// leaving the changes reverted so far in place.
pub open spec fn undo_changes(db: Map<RefID, ObjectView>, cs: Seq<ChangeView>) -> (Map<RefID, ObjectView>, Seq<ChangeView>, bool)
    decreases cs.len(),
{
    if cs.len() == 0 {
        (db, Seq::empty(), true)
    } else {
        match undo_step(db, cs.last()) {
            None => (db, Seq::empty(), false),
            Some((db2, r)) => {
                let rest = undo_changes(db2, cs.drop_last());
                (rest.0, seq![r] + rest.1, rest.2)
            },
        }
    }
}

/// `after` is what `before` became through the change that `c` records, and
/// `c` holds what reverting it needs: an added object's key, or an object as
/// it was before it was modified or deleted.
pub open spec fn recorded_step(before: Map<RefID, ObjectView>, c: ChangeView, after: Map<RefID, ObjectView>) -> bool {
    match c {
        ChangeView::Add { key } => {
            &&& !before.contains_key(key)
            &&& after.contains_key(key)
            &&& after[key].id == key
            &&& after == before.insert(key, after[key])
        },
        ChangeView::Modify { obj } => {
            &&& before.contains_key(obj.id)
            &&& before[obj.id] == obj
            &&& after.contains_key(obj.id)
            &&& after[obj.id].id == obj.id
            &&& after == before.insert(obj.id, after[obj.id])
        },
        ChangeView::Delete { obj } => {
            &&& before.contains_key(obj.id)
            &&& before[obj.id] == obj
            &&& after == before.remove(obj.id)
        },
    }
}

/// The changes `cs` took the database through the states `states`, the
/// change `cs[i]` leading from `states[i]` to `states[i + 1]`.
pub open spec fn recorded_trace(states: Seq<Map<RefID, ObjectView>>, cs: Seq<ChangeView>) -> bool {
    &&& states.len() == cs.len() + 1
    &&& forall|i: int| 0 <= i < cs.len() ==> recorded_step(#[trigger] states[i], cs[i], states[i + 1])
}

/// The change that redoes `c` once it has been reverted, `after` being the
/// database that `c` led to.
pub open spec fn inverse_change(after: Map<RefID, ObjectView>, c: ChangeView) -> ChangeView {
    match c {
        ChangeView::Add { key } => ChangeView::Delete { obj: after[key] },
        ChangeView::Modify { obj } => ChangeView::Modify { obj: after[obj.id] },
        ChangeView::Delete { obj } => ChangeView::Add { key: obj.id },
    }
}

/// The redo changes of the recorded changes `cs` through `states`, in the
/// order in which undoing makes them: the inverse of the last change first.
pub open spec fn redo_changes(states: Seq<Map<RefID, ObjectView>>, cs: Seq<ChangeView>) -> Seq<ChangeView>
    decreases cs.len(),
{
    if cs.len() == 0 {
        Seq::empty()
    } else {
        seq![inverse_change(states[cs.len() as int], cs.last())] + redo_changes(states, cs.drop_last())
    }
}

/// A recorded trace that one more recorded step extends is still a recorded
/// trace: the changes an event records one after another, each a recorded
/// step from where the last left the database, form a trace.
pub proof fn lemma_trace_push(
    states: Seq<Map<RefID, ObjectView>>,
    cs: Seq<ChangeView>,
    c: ChangeView,
    after: Map<RefID, ObjectView>,
)
    requires
        recorded_trace(states, cs),
        recorded_step(states.last(), c, after),
    ensures
        recorded_trace(states.push(after), cs.push(c)),
{
    let s2 = states.push(after);
    let c2 = cs.push(c);
    assert forall|i: int| 0 <= i < c2.len() implies recorded_step(#[trigger] s2[i], c2[i], s2[i + 1]) by {
        if i < cs.len() {
            assert(recorded_step(states[i], cs[i], states[i + 1]));
        }
    }
}

/// The empty trace: a database that no change has touched yet.
pub proof fn lemma_trace_start(db: Map<RefID, ObjectView>)
    ensures
        recorded_trace(seq![db], Seq::<ChangeView>::empty()),
{
}

proof fn lemma_step_inverse(a: Map<RefID, ObjectView>, c: ChangeView, b: Map<RefID, ObjectView>)
    requires
        recorded_step(a, c, b),
    ensures
        undo_step(b, c) == Some((a, inverse_change(b, c))),
        undo_step(a, inverse_change(b, c)) == Some((b, c)),
{
    match c {
        ChangeView::Add { key } => {
            assert(b.remove(key) =~= a);
            assert(a.insert(key, b[key]) =~= b);
        },
        ChangeView::Modify { obj } => {
            assert(b.insert(obj.id, obj) =~= a);
            assert(a.insert(obj.id, b[obj.id]) =~= b);
        },
        ChangeView::Delete { obj } => {
            assert(b.insert(obj.id, obj) =~= a);
            assert(a.remove(obj.id) =~= b);
        },
    }
}

proof fn lemma_undo_concat(db: Map<RefID, ObjectView>, a: Seq<ChangeView>, b: Seq<ChangeView>)
    ensures
        undo_changes(db, a + b) == ({
            let u = undo_changes(db, b);
            if u.2 {
                let v = undo_changes(u.0, a);
                (v.0, u.1 + v.1, v.2)
            } else {
                u
            }
        }),
    decreases b.len(),
{
    if b.len() == 0 {
        assert(a + b =~= a);
        assert(Seq::<ChangeView>::empty() + undo_changes(db, a).1 =~= undo_changes(db, a).1);
    } else {
        assert((a + b).last() == b.last());
        assert((a + b).drop_last() =~= a + b.drop_last());
        match undo_step(db, b.last()) {
            None => {},
            Some((db2, r)) => {
                lemma_undo_concat(db2, a, b.drop_last());
                let rest = undo_changes(db2, b.drop_last());
                if rest.2 {
                    let v = undo_changes(rest.0, a);
                    assert(seq![r] + (rest.1 + v.1) =~= (seq![r] + rest.1) + v.1);
                }
            },
        }
    }
}

proof fn lemma_undo_prefix(states: Seq<Map<RefID, ObjectView>>, cs: Seq<ChangeView>, k: int)
    requires
        recorded_trace(states, cs),
        0 <= k <= cs.len(),
    ensures
        undo_changes(states[k], cs.take(k)) == (states[0], redo_changes(states, cs.take(k)), true),
        undo_changes(states[0], redo_changes(states, cs.take(k))) == (states[k], cs.take(k), true),
    decreases k,
{
    if k == 0 {
        assert(cs.take(0) =~= Seq::<ChangeView>::empty());
    } else {
        let t = cs.take(k);
        assert(t.last() == cs[k - 1]);
        assert(t.drop_last() =~= cs.take(k - 1));
        lemma_undo_prefix(states, cs, k - 1);
        assert(recorded_step(states[k - 1], cs[k - 1], states[k]));
        lemma_step_inverse(states[k - 1], cs[k - 1], states[k]);
        let inv = inverse_change(states[k], cs[k - 1]);
        let rest = redo_changes(states, cs.take(k - 1));
        assert(redo_changes(states, t) == seq![inv] + rest);
        lemma_undo_concat(states[0], seq![inv], rest);
        let single = seq![inv];
        assert(single.last() == inv);
        assert(single.drop_last() =~= Seq::<ChangeView>::empty());
        assert(undo_changes(states[k], single.drop_last()) == (states[k], Seq::<ChangeView>::empty(), true));
        assert(seq![cs[k - 1]] + Seq::<ChangeView>::empty() =~= seq![cs[k - 1]]);
        assert(undo_changes(states[k - 1], single) == (states[k], seq![cs[k - 1]], true));
        assert(cs.take(k - 1) + seq![cs[k - 1]] =~= t);
    }
}

/// Undoing the changes that an event recorded, through whatever states they
/// took the database, gives back the database as it was before the first of
/// them; and undoing the redo changes that this gives takes the database
/// back to where the event left it, giving back the event's own changes.
pub proof fn lemma_undo_inverts_recorded(states: Seq<Map<RefID, ObjectView>>, cs: Seq<ChangeView>)
    requires
        recorded_trace(states, cs),
    ensures
        undo_changes(states.last(), cs) == (states[0], redo_changes(states, cs), true),
        undo_changes(states[0], redo_changes(states, cs)) == (states.last(), cs, true),
{
    lemma_undo_prefix(states, cs, cs.len() as int);
    assert(cs.take(cs.len() as int) =~= cs);
}

/// The lines that the state dump gives the objects `ks`, in order: each
/// identifier with the number of bytes of its object.
pub open spec fn objects_text(ks: Seq<RefID>, objects: Map<RefID, ObjectView>) -> Seq<char>
    decreases ks.len(),
{
    if ks.len() == 0 {
        Seq::empty()
    } else {
        objects_text(ks.drop_last(), objects) + uuid_text(ks.last()) + ": "@ + decimal(objects[ks.last()].data.len())
            + " bytes\n"@
    }
}

/// The objects of one drawing, each under its identifier.
pub struct FileDatabase {
    db: ObjectMap,
}

impl View for FileDatabase {
    type V = Map<RefID, ObjectView>;

    closed spec fn view(&self) -> Map<RefID, ObjectView> {
        db_entries(self.db)
    }
}

impl FileDatabase {
    /// Appends the objects, one line each, in the order in which the map is
    /// walked.
    pub fn debug_state(&self, output: &mut String)
        ensures
            exists|ks: Seq<RefID>| #[trigger] lists_keys(ks, self@)
                && final(output)@ == old(output)@ + "Objects:\n"@ + objects_text(ks, self@),
    {
        output.append("Objects:\n");
        let keys = db_map_keys(&self.db);
        let ghost start = output@;
        let mut i: usize = 0;
        proof {
            assert(keys@.take(0) =~= Seq::<u128>::empty());
            assert(output@ =~= start + objects_text(keys@.take(0), self@));
        }
        while i < keys.len()
            invariant
                i <= keys@.len(),
                keys@.to_set() == self@.dom(),
                output@ == start + objects_text(keys@.take(i as int), self@),
            decreases keys@.len() - i,
        {
            let k = keys[i];
            proof {
                assert(keys@.take(i + 1).drop_last() =~= keys@.take(i as int));
                assert(keys@.take(i + 1).last() == k);
                assert(keys@.to_set().contains(k));
            }
            push_uuid(output, k);
            output.append(": ");
            match db_map_get(&self.db, k) {
                Some(obj) => {
                    push_decimal(output, obj.data.len() as u128);
                },
                None => {},
            }
            output.append(" bytes\n");
            proof {
                assert(output@ =~= start + objects_text(keys@.take(i + 1), self@));
            }
            i += 1;
        }
        proof {
            assert(keys@.take(keys@.len() as int) =~= keys@);
            assert(lists_keys(keys@, self@));
        }
    }
}

impl FileDatabase {
    /// The database is finite and every object is under its own identifier.
    pub open spec fn wf(&self) -> bool {
        &&& self@.dom().finite()
        &&& keys_are_ids(self@)
    }

    /// An empty database.
    pub fn new() -> (r: FileDatabase)
        ensures
            r.wf(),
            r@ == Map::<RefID, ObjectView>::empty(),
    {
        let r = FileDatabase { db: db_map_new() };
        proof {
            assert(r@ =~= Map::<RefID, ObjectView>::empty());
        }
        r
    }

    /// Whether an object is stored under `key`.
    pub fn contains(&self, key: RefID) -> (r: bool)
        ensures
            r == self@.contains_key(key),
    {
        db_map_contains(&self.db, key)
    }

    /// Adds an object under its identifier; an object already there is an
    /// `Overwrite` error and leaves the database as it was.
    pub fn add(&mut self, obj: DataObject) -> (r: Result<(), DBError>)
        requires
            old(self).wf(),
        ensures
            final(self).wf(),
            old(self)@.contains_key(obj.id) ==> {
                &&& r matches Err(DBError::Overwrite)
                &&& final(self)@ == old(self)@
            },
            !old(self)@.contains_key(obj.id) ==> {
                &&& r is Ok
                &&& final(self)@ == old(self)@.insert(obj.id, obj@)
            },
    {
        let key = obj.id;
        if !db_map_contains(&self.db, key) {
            db_map_insert(&mut self.db, key, obj);
            proof {
                assert(keys_are_ids(self@));
            }
            Ok(())
        } else {
            Err(DBError::Overwrite)
        }
    }

    /// A copy of the object under `key`; the nil identifier and a missing
    /// object are `NotFound`.
    pub fn get(&self, key: RefID) -> (r: Result<DataObject, DBError>)
        ensures
            (key == nil_id() || !self@.contains_key(key)) ==> r matches Err(DBError::NotFound(_)),
            (key != nil_id() && self@.contains_key(key)) ==> (r matches Ok(obj) && obj@ == self@[key]),
    {
        if key == crate::ids::nil() {
            return Err(DBError::NotFound(String::new()));
        }
        match db_map_get(&self.db, key) {
            Some(obj) => Ok(obj),
            None => Err(DBError::NotFound(String::new())),
        }
    }

    /// Takes the object under `key` out of the database; a missing object is
    /// `NotFound`.
    pub fn remove(&mut self, key: RefID) -> (r: Result<DataObject, DBError>)
        requires
            old(self).wf(),
        ensures
            final(self).wf(),
            final(self)@ == old(self)@.remove(key),
            !old(self)@.contains_key(key) ==> r matches Err(DBError::NotFound(_)),
            old(self)@.contains_key(key) ==> (r matches Ok(obj) && obj@ == old(self)@[key]),
    {
        match db_map_remove(&mut self.db, key) {
            Some(obj) => Ok(obj),
            None => Err(DBError::NotFound(String::new())),
        }
    }

    /// Replaces the encoded entity of the object under `key`, keeping its
    /// identifier; the nil identifier and a missing object are `NotFound` and
    /// change nothing.
    pub fn get_mut(&mut self, key: RefID, data: Vec<u8>) -> (r: Result<(), DBError>)
        requires
            old(self).wf(),
        ensures
            final(self).wf(),
            (key == nil_id() || !old(self)@.contains_key(key)) ==> {
                &&& r matches Err(DBError::NotFound(_))
                &&& final(self)@ == old(self)@
            },
            (key != nil_id() && old(self)@.contains_key(key)) ==> {
                &&& r is Ok
                &&& final(self)@ == old(self)@.insert(key, ObjectView { id: key, data: data@ })
            },
    {
        if key == crate::ids::nil() {
            return Err(DBError::NotFound(String::new()));
        }
        match db_map_get(&self.db, key) {
            Some(obj) => {
                let updated = DataObject { id: obj.id, data };
                db_map_insert(&mut self.db, key, updated);
                proof {
                    assert(keys_are_ids(self@));
                }
                Ok(())
            },
            None => Err(DBError::NotFound(String::new())),
        }
    }

    /// Copies of all the objects, each once, in the order in which the map
    /// hands out its keys.
    pub fn iterate_all(&self) -> (r: Vec<DataObject>)
        requires
            self.wf(),
        ensures
            r@.map_values(|o: DataObject| o.id).no_duplicates(),
            forall|i: int| 0 <= i < r@.len() ==> {
                &&& self@.contains_key(#[trigger] r@[i].id)
                &&& r@[i]@ == self@[r@[i].id]
            },
            forall|k: RefID| self@.contains_key(k) ==> r@.map_values(|o: DataObject| o.id).contains(k),
    {
        let keys = db_map_keys(&self.db);
        let mut out: Vec<DataObject> = Vec::new();
        for i in 0..keys.len()
            invariant
                self.wf(),
                keys@.no_duplicates(),
                keys@.to_set() == self@.dom(),
                out@.len() == i,
                forall|j: int| 0 <= j < i ==> {
                    &&& #[trigger] out@[j].id == keys@[j]
                    &&& self@.contains_key(keys@[j])
                    &&& out@[j]@ == self@[keys@[j]]
                },
        {
            let k = keys[i];
            proof {
                assert(keys@.to_set().contains(k));
            }
            if let Some(obj) = db_map_get(&self.db, k) {
                out.push(obj);
            }
        }
        proof {
            assert(out@.map_values(|o: DataObject| o.id) =~= keys@);
            assert forall|k: RefID| self@.contains_key(k) implies out@.map_values(|o: DataObject| o.id).contains(k) by {
                assert(keys@.to_set().contains(k));
            }
        }
        out
    }

    /// A copy of the object under `key` that carries the identifier `id`;
    /// the nil key and a missing object are `NotFound`.
    pub fn duplicate_as(&self, key: RefID, id: RefID) -> (r: Result<DataObject, DBError>)
        ensures
            (key == nil_id() || !self@.contains_key(key)) ==> r matches Err(DBError::NotFound(_)),
            (key != nil_id() && self@.contains_key(key)) ==> (r matches Ok(obj) && obj@ == (ObjectView {
                id,
                data: self@[key].data,
            })),
    {
        match self.get(key) {
            Ok(obj) => {
                let mut copy = obj;
                copy.set_id(id);
                Ok(copy)
            },
            Err(e) => Err(e),
        }
    }

    /// A copy of the object under `key` under a fresh random identifier; the
    /// nil key and a missing object are `NotFound`.
    pub fn duplicate(&self, key: RefID) -> (r: Result<DataObject, DBError>)
        ensures
            (key == nil_id() || !self@.contains_key(key)) ==> r matches Err(DBError::NotFound(_)),
            (key != nil_id() && self@.contains_key(key)) ==> (r matches Ok(obj) && obj@.data == self@[key].data),
    {
        let id = crate::ids::new_v4();
        self.duplicate_as(key, id)
    }

    /// The encoded contents of the database, as `bincode` writes the list of
    /// (identifier, bytes) records of its objects, in the order in which the
    /// map hands out its keys.
    pub fn save(&self) -> (r: Result<Vec<u8>, DBError>)
        ensures
            r matches Ok(bytes) && bincode_read_records(bytes@) matches Some(records) && bytes@ == bincode_records(records)
                && lists_db(records, self@),
    {
        let keys = db_map_keys(&self.db);
        let mut records: Vec<(u128, Vec<u8>)> = Vec::new();
        let mut i: usize = 0;
        while i < keys.len()
            invariant
                i <= keys@.len(),
                keys@.no_duplicates(),
                keys@.to_set() == self@.dom(),
                records@.len() == i,
                forall|j: int| 0 <= j < i ==> {
                    &&& #[trigger] records@[j].0 == keys@[j]
                    &&& self@.contains_key(keys@[j])
                    &&& records@[j].1@ == self@[keys@[j]].data
                },
            decreases keys@.len() - i,
        {
            let k = keys[i];
            proof {
                assert(keys@.to_set().contains(k));
            }
            match db_map_get(&self.db, k) {
                Some(obj) => {
                    records.push((k, obj.data));
                },
                None => {
                    proof {
                        assert(false);
                    }
                },
            }
            i += 1;
        }
        proof {
            let rv = records_view(records@);
            assert(record_ids(rv) =~= keys@);
            assert forall|k: RefID| self@.contains_key(k) implies record_ids(rv).contains(k) by {
                assert(keys@.to_set().contains(k));
            }
            assert(lists_db(rv, self@));
            lemma_pow256_bounds();
            assert forall|i: int| 0 <= i < rv.len() implies (#[trigger] rv[i]).1.len() < pow256(8) by {
                assert(rv[i].1.len() == records@[i].1@.len());
                assert(records@[i].1@.len() == records@[i].1.len());
            }
            assert(fits(rv));
            lemma_read_written(rv);
        }
        encode_records(&records)
    }

    /// Adds the objects that `bytes` encode, in order, and returns their
    /// identifiers. Bytes that `bincode` cannot read are `Other` and change
    /// nothing; an identifier already present is `Overwrite`, the objects
    /// before it staying added.
    pub fn open(&mut self, bytes: &[u8]) -> (r: Result<Vec<RefID>, DBError>)
        requires
            old(self).wf(),
        ensures
            final(self).wf(),
            bincode_read_records(bytes@) is None ==> {
                &&& r matches Err(DBError::Other(_))
                &&& final(self)@ == old(self)@
            },
            bincode_read_records(bytes@) matches Some(records) ==> {
                &&& final(self)@ == add_records(old(self)@, records).0
                &&& add_records(old(self)@, records).1 ==> (r matches Ok(keys) && keys@ == record_ids(records))
                &&& !add_records(old(self)@, records).1 ==> r matches Err(DBError::Overwrite)
            },
    {
        let records = match decode_records(bytes) {
            Ok(records) => records,
            Err(e) => {
                return Err(e);
            },
        };
        let ghost rv = records_view(records@);
        let mut keys: Vec<RefID> = Vec::new();
        let mut i: usize = 0;
        let n = records.len();
        proof {
            assert(rv.take(0) =~= Seq::<(u128, Seq<u8>)>::empty());
            assert(record_ids(rv.take(0)) =~= keys@);
        }
        while i < n
            invariant
                self.wf(),
                n == rv.len(),
                i <= n,
                rv == records_view(records@),
                bincode_read_records(bytes@) == Some(rv),
                add_records(old(self)@, rv.take(i as int)) == (self@, true),
                keys@ == record_ids(rv.take(i as int)),
            decreases n - i,
        {
            let id = records[i].0;
            let data = records[i].1.clone();
            proof {
                assert(data@ =~= records@[i as int].1@);
                let t = rv.take(i + 1);
                assert(t.drop_last() =~= rv.take(i as int));
                assert(t.last() == rv[i as int]);
                assert(rv[i as int] == (id, data@));
            }
            match self.add(DataObject { id, data }) {
                Ok(()) => {
                    keys.push(id);
                    proof {
                        assert(record_ids(rv.take(i + 1)) =~= record_ids(rv.take(i as int)).push(id));
                    }
                },
                Err(e) => {
                    proof {
                        lemma_add_records_stop(old(self)@, rv, i as int, rv.len() as int);
                        assert(rv.take(rv.len() as int) =~= rv);
                    }
                    return Err(e);
                },
            }
            i += 1;
        }
        proof {
            assert(rv.take(n as int) =~= rv);
        }
        Ok(keys)
    }

    /// Reverts the changes of `event`, last first, and returns the event that
    /// redoes them: the same event with the redo changes in the order they
    /// were made. A change whose object is missing stops the revert with
    /// `NotFound`, leaving the changes reverted so far in place.
    pub fn undo(&mut self, event: UndoEvent) -> (r: Result<UndoEvent, DBError>)
        requires
            old(self).wf(),
        ensures
            final(self).wf(),
            final(self)@ == undo_changes(old(self)@, event@.changes).0,
            undo_changes(old(self)@, event@.changes).2 ==> (r matches Ok(redo) && redo@ == (EventView {
                changes: undo_changes(old(self)@, event@.changes).1,
                ..event@
            })),
            !undo_changes(old(self)@, event@.changes).2 ==> r matches Err(DBError::NotFound(_)),
    {
        let ghost cs = event@.changes;
        let mut redo: Vec<Change> = Vec::new();
        let mut i = event.changes.len();
        proof {
            assert(cs.take(i as int) =~= cs);
            assert(redo@.map_values(|c: Change| c@) =~= Seq::<ChangeView>::empty());
        }
        while i > 0
            invariant
                self.wf(),
                i <= event.changes.len(),
                cs == event@.changes,
                cs == event.changes@.map_values(|c: Change| c@),
                undo_changes(old(self)@, cs) == ({
                    let u = undo_changes(self@, cs.take(i as int));
                    (u.0, redo@.map_values(|c: Change| c@) + u.1, u.2)
                }),
            decreases i,
        {
            let ghost before = self@;
            let ghost redo_before = redo@.map_values(|c: Change| c@);
            proof {
                assert(cs.take(i as int).drop_last() =~= cs.take(i - 1));
                assert(cs.take(i as int).last() == cs[i - 1]);
                assert(cs[i - 1] == event.changes@[i - 1]@);
            }
            i -= 1;
            match &event.changes[i] {
                Change::Add { key } => {
                    match db_map_remove(&mut self.db, *key) {
                        Some(val) => {
                            redo.push(Change::Delete { obj: val });
                        },
                        None => {
                            proof {
                                assert(self@ =~= before);
                                let t = cs.take(i + 1);
                                assert(t.last() == cs[i as int]);
                                assert(undo_step(before, t.last()) is None);
                                assert(undo_changes(before, t).2 == false);
                                assert(undo_changes(before, t).0 == before);
                            }
                            return Err(DBError::NotFound(String::new()));
                        },
                    }
                },
                Change::Modify { obj } => {
                    match db_map_remove(&mut self.db, obj.id) {
                        Some(val) => {
                            redo.push(Change::Modify { obj: val });
                        },
                        None => {
                            proof {
                                assert(self@ =~= before);
                                let t = cs.take(i + 1);
                                assert(t.last() == cs[i as int]);
                                assert(undo_step(before, t.last()) is None);
                                assert(undo_changes(before, t).2 == false);
                                assert(undo_changes(before, t).0 == before);
                            }
                            return Err(DBError::NotFound(String::new()));
                        },
                    }
                    db_map_insert(&mut self.db, obj.id, obj.duplicate());
                    proof {
                        assert(self@ =~= before.insert(obj.id, obj@));
                    }
                },
                Change::Delete { obj } => {
                    redo.push(Change::Add { key: obj.id });
                    db_map_insert(&mut self.db, obj.id, obj.duplicate());
                },
            }
            proof {
                assert(redo@.map_values(|c: Change| c@) =~= redo_before.push(redo@.last()@));
                let u = undo_changes(self@, cs.take(i as int));
                assert(redo_before + (seq![redo@.last()@] + u.1) =~= redo@.map_values(|c: Change| c@) + u.1);
            }
        }
        Ok(UndoEvent { changes: redo, ..event })
    }
}

} // verus!
