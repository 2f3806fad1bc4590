//! Which pieces of geometry follow which: the dependency graph of a drawing.
use vstd::prelude::*;
use ccl::dhashmap::DHashMap;
use indexmap::IndexSet;
use std::collections::{HashSet, VecDeque};
use crate::geometry_kernel::{GeometryId, Reference};
use crate::ids::{RefID, nil_id};
use crate::text::{decimal, push_decimal, uuid_text, push_uuid};

verus! {

#[verifier::external_type_specification]
#[verifier::external_body]
#[verifier::reject_recursive_types(T)]
#[verifier::reject_recursive_types(S)]
pub struct ExIndexSet<T, S>(IndexSet<T, S>);

/// The references of an insertion-ordered set, in insertion order.
pub uninterp spec fn ordered_refs(s: IndexSet<Reference>) -> Seq<Reference>;

/// An empty set, from `IndexSet::new`.
///
/// Trusted: `new` makes a set with no item.
#[verifier::external_body]
fn refs_new() -> (r: IndexSet<Reference>)
    ensures
        ordered_refs(r).len() == 0,
{
    IndexSet::new()
}

/// `IndexSet::insert`.
///
/// Trusted: as the documentation of `insert` says, an item already in the set
/// leaves the set as it is and gives `false`; a new item goes after the
/// others and gives `true`.
#[verifier::external_body]
fn refs_insert(s: &mut IndexSet<Reference>, value: Reference) -> (r: bool)
    ensures
        r == !ordered_refs(*old(s)).contains(value),
        r ==> ordered_refs(*final(s)) == ordered_refs(*old(s)).push(value),
        !r ==> ordered_refs(*final(s)) == ordered_refs(*old(s)),
{
    s.insert(value)
}

/// The concurrent map that holds, for each piece of geometry, the pieces that
/// follow it.
pub type SubMap = DHashMap<(u128, usize), Vec<GeometryId>>;

/// What the map of followers holds: for each (object, index) key, the list of
/// followers.
pub uninterp spec fn dep_entries(m: SubMap) -> Map<(u128, usize), Seq<GeometryId>>;

/// An empty map, from `DHashMap::default`.
///
/// Trusted: `default` builds a power-of-two number of empty sub-maps.
#[verifier::external_body]
fn dep_map_new() -> (r: SubMap)
    ensures
        dep_entries(r).dom() == Set::<(u128, usize)>::empty(),
{
    DHashMap::default()
}

/// `DHashMap::insert`: the key now maps to the list, whatever it held.
///
/// Trusted: `insert` writes the pair into the sub-map that the key hashes to,
/// replacing the value of an equal key.
#[verifier::external_body]
fn dep_map_insert(m: &mut SubMap, key: (u128, usize), value: Vec<GeometryId>)
    ensures
        dep_entries(*final(m)) == dep_entries(*old(m)).insert(key, value@),
{
    m.insert(key, value);
}

/// `DHashMap::get`, handing back a copy of the list.
///
/// Trusted: `get` gives a guard on the list of the key, or `None` when the
/// key is absent; the copy is made by `copy_list`.
#[verifier::external_body]
fn dep_map_get(m: &SubMap, key: (u128, usize)) -> (r: Option<Vec<GeometryId>>)
    ensures
        r is Some == dep_entries(*m).contains_key(key),
        r matches Some(v) ==> v@ == dep_entries(*m)[key],
{
    m.get(&key).map(|v| copy_list(&v))
}

/// A copy of the list.
fn copy_list(v: &Vec<GeometryId>) -> (r: Vec<GeometryId>)
    ensures
        r@ == v@,
{
    let mut out: Vec<GeometryId> = Vec::new();
    let mut i: usize = 0;
    while i < v.len()
        invariant
            i <= v@.len(),
            out@ == v@.take(i as int),
        decreases v@.len() - i,
    {
        out.push(v[i]);
        i += 1;
        proof {
            assert(out@ =~= v@.take(i as int));
        }
    }
    proof {
        assert(v@.take(v@.len() as int) =~= v@);
    }
    out
}

/// `DHashMap::remove`.
///
/// Trusted: `remove` takes the entry of the key out of its sub-map.
#[verifier::external_body]
fn dep_map_remove(m: &mut SubMap, key: (u128, usize))
    ensures
        dep_entries(*final(m)) == dep_entries(*old(m)).remove(key),
{
    m.remove(&key);
}

/// The keys of the map, from `DHashMap::iter`.
///
/// Trusted: the iterator visits every entry of every sub-map once; the order
/// depends on the hashes and is left open.
#[verifier::external_body]
fn dep_map_keys(m: &SubMap) -> (r: Vec<(u128, usize)>)
    ensures
        r@.no_duplicates(),
        r@.to_set() == dep_entries(*m).dom(),
{
    m.iter().map(|entry| *entry.key()).collect()
}

/// The key under which the followers of a piece are kept.
pub open spec fn key_of(g: GeometryId) -> (u128, usize) {
    (g.id, g.index)
}

/// The followers of `n` in the graph.
pub open spec fn subs_of(graph: Map<(u128, usize), Set<GeometryId>>, n: GeometryId) -> Set<GeometryId> {
    if graph.contains_key(key_of(n)) {
        graph[key_of(n)]
    } else {
        Set::empty()
    }
}

/// `b` follows `a` directly.
pub open spec fn edge(graph: Map<(u128, usize), Set<GeometryId>>, a: GeometryId, b: GeometryId) -> bool {
    subs_of(graph, a).contains(b)
}

/// Each piece of `p` follows the one before it.
pub open spec fn is_path(graph: Map<(u128, usize), Set<GeometryId>>, p: Seq<GeometryId>) -> bool {
    &&& p.len() >= 1
    &&& forall|i: int| 0 <= i < p.len() - 1 ==> edge(graph, #[trigger] p[i], p[i + 1])
}

/// `b` follows `a`, directly or through other pieces (or is `a`).
pub open spec fn reachable(graph: Map<(u128, usize), Set<GeometryId>>, a: GeometryId, b: GeometryId) -> bool {
    exists|p: Seq<GeometryId>| #[trigger] is_path(graph, p) && p[0] == a && p.last() == b
}

/// The references found from the pieces `ids`: none twice; each is an edge
/// of the graph; each starts from one of `ids` or from a piece that an
/// earlier reference reached; and every piece that follows one of `ids`,
/// other than that piece itself, is reached by some reference.
pub open spec fn deps_result(graph: Map<(u128, usize), Set<GeometryId>>, ids: Seq<GeometryId>, rs: Seq<Reference>) -> bool {
    &&& rs.no_duplicates()
    &&& forall|i: int| 0 <= i < rs.len() ==> edge(graph, #[trigger] rs[i].other, rs[i].owner)
    &&& forall|i: int| 0 <= i < rs.len() ==> ids.contains(#[trigger] rs[i].other)
        || exists|j: int| 0 <= j < i && rs[j].owner == rs[i].other
    &&& forall|k: int, n: GeometryId| 0 <= k < ids.len() && #[trigger] reachable(graph, ids[k], n) && n != ids[k]
        ==> exists|i: int| 0 <= i < rs.len() && #[trigger] rs[i].owner == n
}

/// The pieces in the order a search from `root` that found the references
/// `rs` reached them: `root`, then the owner of each reference.
pub open spec fn reached(root: GeometryId, rs: Seq<Reference>) -> Seq<GeometryId> {
    seq![root] + rs.map_values(|r: Reference| r.owner)
}

/// Where `x` stands in `s` (in a list without duplicates, its one place).
pub open spec fn position(s: Seq<GeometryId>, x: GeometryId) -> int {
    choose|m: int| 0 <= m < s.len() && s[m] == x
}

/// The references found from `root` by a breadth-first search: each is an
/// edge of the graph; each reaches a different piece, never `root`; each
/// starts from `root` or from a piece that an earlier reference reached; and
/// every piece that follows `root`, other than `root`, is reached. The
/// search goes in breadth-first order: the pieces the references start from
/// come in the order they were reached, so the followers of a piece come
/// before those of any piece reached after it, and each piece is reached
/// from the first reached piece that it follows.
pub open spec fn bfs_result(graph: Map<(u128, usize), Set<GeometryId>>, root: GeometryId, rs: Seq<Reference>) -> bool {
    &&& forall|i: int| 0 <= i < rs.len() ==> edge(graph, #[trigger] rs[i].other, rs[i].owner)
    &&& forall|i: int| 0 <= i < rs.len() ==> #[trigger] rs[i].owner != root
    &&& forall|i: int, j: int| 0 <= i < rs.len() && 0 <= j < rs.len() && i != j ==> #[trigger] rs[i].owner != #[trigger] rs[j].owner
    &&& forall|i: int| 0 <= i < rs.len() ==> #[trigger] rs[i].other == root
        || exists|j: int| 0 <= j < i && rs[j].owner == rs[i].other
    &&& forall|n: GeometryId| #[trigger] reachable(graph, root, n) && n != root
        ==> exists|i: int| 0 <= i < rs.len() && #[trigger] rs[i].owner == n
    &&& forall|i: int, j: int| 0 <= i < j < rs.len() ==> position(reached(root, rs), #[trigger] rs[i].other)
        <= position(reached(root, rs), #[trigger] rs[j].other)
    &&& forall|i: int, m: int| 0 <= i < rs.len() && 0 <= m < position(reached(root, rs), rs[i].other)
        ==> !edge(graph, #[trigger] reached(root, rs)[m], #[trigger] rs[i].owner)
}

/// `acc` followed by the references of `s` that it does not hold yet, in
/// order.
pub open spec fn add_new(acc: Seq<Reference>, s: Seq<Reference>) -> Seq<Reference>
    decreases s.len(),
{
    if s.len() == 0 {
        acc
    } else {
        let a = add_new(acc, s.drop_last());
        if a.contains(s.last()) {
            a
        } else {
            a.push(s.last())
        }
    }
}

/// The references of the lists in `found`, in order, each kept at its
/// first occurrence.
pub open spec fn first_union(found: Seq<Seq<Reference>>) -> Seq<Reference>
    decreases found.len(),
{
    if found.len() == 0 {
        Seq::empty()
    } else {
        add_new(first_union(found.drop_last()), found.last())
    }
}

/// `rs` is what the breadth-first searches from each of `ids` in turn find,
/// each reference kept at its first occurrence.
pub open spec fn searches_result(graph: Map<(u128, usize), Set<GeometryId>>, ids: Seq<GeometryId>, rs: Seq<Reference>) -> bool {
    exists|found: Seq<Seq<Reference>>| #![trigger first_union(found)]
        found.len() == ids.len() && (forall|k: int| 0 <= k < ids.len() ==> #[trigger] bfs_result(graph, ids[k], found[k]))
            && rs == first_union(found)
}

/// In a list without duplicates, the place of its `m`-th piece is `m`.
proof fn lemma_position(s: Seq<GeometryId>, m: int)
    requires
        s.no_duplicates(),
        0 <= m < s.len(),
    ensures
        position(s, s[m]) == m,
{
    assert(0 <= m < s.len() && s[m] == s[m]);
    let c = position(s, s[m]);
    assert(0 <= c < s.len() && s[c] == s[m]);
}

/// A set that holds the start of a path and every follower of its members
/// holds the end of the path.
proof fn lemma_closed_holds_path(graph: Map<(u128, usize), Set<GeometryId>>, v: Set<GeometryId>, p: Seq<GeometryId>)
    requires
        is_path(graph, p),
        v.contains(p[0]),
        forall|a: GeometryId, b: GeometryId| v.contains(a) && #[trigger] edge(graph, a, b) ==> v.contains(b),
    ensures
        v.contains(p.last()),
    decreases p.len(),
{
    if p.len() > 1 {
        let q = p.drop_last();
        assert forall|i: int| 0 <= i < q.len() - 1 implies edge(graph, #[trigger] q[i], q[i + 1]) by {
            assert(edge(graph, p[i], p[i + 1]));
        }
        lemma_closed_holds_path(graph, v, q);
        assert(edge(graph, p[p.len() - 2], p[p.len() - 1]));
    }
}

/// For each piece of geometry, the pieces that follow it and must be brought
/// up to date when it changes.
pub struct DependencyManager {
    pub_subs: SubMap,
}

impl View for DependencyManager {
    type V = Map<(u128, usize), Set<GeometryId>>;

    closed spec fn view(&self) -> Map<(u128, usize), Set<GeometryId>> {
        dep_entries(self.pub_subs).map_values(|s: Seq<GeometryId>| s.to_set())
    }
}

/// Whether the list holds `x`.
fn list_contains(v: &Vec<GeometryId>, x: GeometryId) -> (r: bool)
    ensures
        r == v@.contains(x),
{
    let mut i: usize = 0;
    while i < v.len()
        invariant
            i <= v@.len(),
            forall|j: int| 0 <= j < i ==> v@[j] != x,
        decreases v@.len() - i,
    {
        if v[i] == x {
            return true;
        }
        i += 1;
    }
    false
}

/// The list without `x`.
fn list_without(v: &Vec<GeometryId>, x: GeometryId) -> (r: Vec<GeometryId>)
    ensures
        r@.to_set() == v@.to_set().remove(x),
{
    let mut out: Vec<GeometryId> = Vec::new();
    let mut i: usize = 0;
    while i < v.len()
        invariant
            i <= v@.len(),
            out@.to_set() == v@.take(i as int).to_set().remove(x),
        decreases v@.len() - i,
    {
        let y = v[i];
        proof {
            assert(v@.take(i + 1) =~= v@.take(i as int).push(y));
            lemma_push_to_set(v@.take(i as int), y);
        }
        if y != x {
            proof {
                lemma_push_to_set(out@, y);
            }
            out.push(y);
        }
        i += 1;
    }
    proof {
        assert(v@.take(v@.len() as int) =~= v@);
    }
    out
}

proof fn lemma_push_to_set(s: Seq<GeometryId>, x: GeometryId)
    ensures
        s.push(x).to_set() == s.to_set().insert(x),
        s.push(x).no_duplicates() == (s.no_duplicates() && !s.contains(x)),
{
    assert(s.push(x).to_set() =~= s.to_set().insert(x)) by {
        assert forall|y: GeometryId| s.push(x).to_set().contains(y) <==> s.to_set().insert(x).contains(y) by {
            if s.push(x).contains(y) && y != x {
                let i = choose|i: int| 0 <= i < s.push(x).len() && #[trigger] s.push(x)[i] == y;
                assert(s[i] == y);
            }
            if s.contains(y) {
                let i = choose|i: int| 0 <= i < s.len() && #[trigger] s[i] == y;
                assert(s.push(x)[i] == y);
            }
            if y == x {
                assert(s.push(x)[s.len() as int] == y);
            }
        }
    }
    if s.push(x).no_duplicates() {
        if s.contains(x) {
            let i = choose|i: int| 0 <= i < s.len() && #[trigger] s[i] == x;
            assert(s.push(x)[i] == s.push(x)[s.len() as int]);
        }
        assert forall|i: int, j: int| 0 <= i < s.len() && 0 <= j < s.len() && i != j implies s[i] != s[j] by {
            assert(s.push(x)[i] == s[i] && s.push(x)[j] == s[j]);
        }
    }
    if s.no_duplicates() && !s.contains(x) {
        assert forall|i: int, j: int| 0 <= i < s.push(x).len() && 0 <= j < s.push(x).len() && i != j implies s.push(x)[i]
            != s.push(x)[j] by {
            if i < s.len() && j == s.len() {
                assert(s.contains(s[i]));
            }
            if j < s.len() && i == s.len() {
                assert(s.contains(s[j]));
            }
        }
    }
}

/// How the state dump writes a piece of geometry: the identifier of its
/// object as a UUID, a dot and its index.
pub open spec fn piece_text(id: u128, index: usize) -> Seq<char> {
    uuid_text(id) + "."@ + decimal(index as nat)
}

/// The pieces, each after a space.
pub open spec fn followers_text(fs: Seq<GeometryId>) -> Seq<char>
    decreases fs.len(),
{
    if fs.len() == 0 {
        Seq::empty()
    } else {
        followers_text(fs.drop_last()) + " "@ + piece_text(fs.last().id, fs.last().index)
    }
}

/// The lines that the state dump gives the pieces `ks`, each with the list
/// of its followers at the same place in `fs`.
pub open spec fn deps_text(ks: Seq<(u128, usize)>, fs: Seq<Seq<GeometryId>>) -> Seq<char>
    decreases ks.len(),
{
    if ks.len() == 0 {
        Seq::empty()
    } else {
        deps_text(ks.drop_last(), fs.drop_last()) + piece_text(ks.last().0, ks.last().1) + " ->"@ + followers_text(fs.last())
            + "\n"@
    }
}

/// `ks` lists the pieces that have followers, each once, and `fs` lists the
/// followers of each, each once.
pub open spec fn lists_graph(ks: Seq<(u128, usize)>, fs: Seq<Seq<GeometryId>>, graph: Map<(u128, usize), Set<GeometryId>>) -> bool {
    &&& ks.no_duplicates()
    &&& ks.to_set() == graph.dom()
    &&& fs.len() == ks.len()
    &&& forall|i: int| 0 <= i < ks.len() ==> #[trigger] fs[i].to_set() == graph[ks[i]]
}

/// Appends the followers, each after a space.
fn push_followers(output: &mut String, fs: &Vec<GeometryId>)
    ensures
        final(output)@ == old(output)@ + followers_text(fs@),
{
    let mut i: usize = 0;
    proof {
        assert(fs@.take(0) =~= Seq::<GeometryId>::empty());
        assert(output@ =~= old(output)@ + followers_text(fs@.take(0)));
    }
    while i < fs.len()
        invariant
            i <= fs@.len(),
            output@ == old(output)@ + followers_text(fs@.take(i as int)),
        decreases fs@.len() - i,
    {
        proof {
            assert(fs@.take(i + 1).drop_last() =~= fs@.take(i as int));
            assert(fs@.take(i + 1).last() == fs@[i as int]);
        }
        output.append(" ");
        push_uuid(output, fs[i].id);
        output.append(".");
        push_decimal(output, fs[i].index as u128);
        proof {
            assert(output@ =~= old(output)@ + followers_text(fs@.take(i + 1)));
        }
        i += 1;
    }
    proof {
        assert(fs@.take(fs@.len() as int) =~= fs@);
    }
}

impl DependencyManager {
    /// Appends the number of pieces that have followers, then one line for
    /// each with its followers, in the order in which the map is walked.
    pub fn debug_state(&self, output: &mut String)
        ensures
            exists|ks: Seq<(u128, usize)>, fs: Seq<Seq<GeometryId>>| #[trigger] lists_graph(ks, fs, self@)
                && final(output)@ == old(output)@ + decimal(ks.len()) + " Dependencies:\n"@ + deps_text(ks, fs),
    {
        let keys = dep_map_keys(&self.pub_subs);
        push_decimal(output, keys.len() as u128);
        output.append(" Dependencies:\n");
        let ghost start = output@;
        let ghost mut fs: Seq<Seq<GeometryId>> = Seq::empty();
        let mut i: usize = 0;
        proof {
            assert(keys@.take(0) =~= Seq::<(u128, usize)>::empty());
            assert(output@ =~= start + deps_text(keys@.take(0), fs));
        }
        while i < keys.len()
            invariant
                i <= keys@.len(),
                keys@.no_duplicates(),
                keys@.to_set() == dep_entries(self.pub_subs).dom(),
                fs.len() == i,
                forall|j: int| 0 <= j < i ==> #[trigger] fs[j] == dep_entries(self.pub_subs)[keys@[j]],
                output@ == start + deps_text(keys@.take(i as int), fs),
            decreases keys@.len() - i,
        {
            let k = keys[i];
            proof {
                assert(keys@.take(i + 1).drop_last() =~= keys@.take(i as int));
                assert(keys@.take(i + 1).last() == k);
                assert(keys@.to_set().contains(k));
            }
            push_uuid(output, k.0);
            output.append(".");
            push_decimal(output, k.1 as u128);
            output.append(" ->");
            let list = match dep_map_get(&self.pub_subs, k) {
                Some(v) => v,
                None => Vec::new(),
            };
            push_followers(output, &list);
            output.append("\n");
            proof {
                let fs2 = fs.push(list@);
                assert(fs2.drop_last() =~= fs);
                assert(output@ =~= start + deps_text(keys@.take(i + 1), fs2));
                fs = fs2;
            }
            i += 1;
        }
        proof {
            assert(keys@.take(keys@.len() as int) =~= keys@);
            assert forall|j: int| 0 <= j < keys@.len() implies #[trigger] fs[j].to_set() == self@[keys@[j]] by {
                assert(keys@.to_set().contains(keys@[j]));
            }
            assert(keys@.to_set() =~= self@.dom());
            assert(lists_graph(keys@, fs, self@));
        }
    }
}

impl DependencyManager {
    /// The graph is finite.
    pub open spec fn wf(&self) -> bool {
        self@.dom().finite()
    }

    /// No dependency.
    pub fn new() -> (r: DependencyManager)
        ensures
            r.wf(),
            r@ == Map::<(u128, usize), Set<GeometryId>>::empty(),
    {
        let r = DependencyManager { pub_subs: dep_map_new() };
        proof {
            assert(r@ =~= Map::<(u128, usize), Set<GeometryId>>::empty());
        }
        r
    }

    /// Makes `sub` follow `publisher`, unless `sub` belongs to the nil object
    /// or is `publisher` itself.
    pub fn register_sub(&mut self, publisher: &GeometryId, sub: GeometryId)
        requires
            old(self).wf(),
        ensures
            final(self).wf(),
            (sub.id == nil_id() || *publisher == sub) ==> final(self)@ == old(self)@,
            (sub.id != nil_id() && *publisher != sub) ==> final(self)@ == old(self)@.insert(
                key_of(*publisher),
                subs_of(old(self)@, *publisher).insert(sub),
            ),
    {
        if sub.id != crate::ids::nil() && *publisher != sub {
            let key = (publisher.id, publisher.index);
            match dep_map_get(&self.pub_subs, key) {
                Some(mut set) => {
                    let ghost before = set@;
                    if !list_contains(&set, sub) {
                        proof {
                            lemma_push_to_set(before, sub);
                        }
                        set.push(sub);
                    } else {
                        proof {
                            assert(before.to_set().insert(sub) =~= before.to_set());
                        }
                    }
                    dep_map_insert(&mut self.pub_subs, key, set);
                },
                None => {
                    let mut set: Vec<GeometryId> = Vec::new();
                    set.push(sub);
                    proof {
                        lemma_push_to_set(Seq::<GeometryId>::empty(), sub);
                        assert(Seq::<GeometryId>::empty().push(sub) =~= set@);
                        assert(Seq::<GeometryId>::empty().to_set() =~= Set::<GeometryId>::empty());
                    }
                    dep_map_insert(&mut self.pub_subs, key, set);
                },
            }
            proof {
                assert(self@ =~= old(self)@.insert(key_of(*publisher), subs_of(old(self)@, *publisher).insert(sub)));
            }
        }
    }

    /// Makes `sub` no longer follow `publisher`.
    pub fn delete_sub(&mut self, publisher: &GeometryId, sub: &GeometryId)
        requires
            old(self).wf(),
        ensures
            final(self).wf(),
            !old(self)@.contains_key(key_of(*publisher)) ==> final(self)@ == old(self)@,
            old(self)@.contains_key(key_of(*publisher)) ==> final(self)@ == old(self)@.insert(
                key_of(*publisher),
                old(self)@[key_of(*publisher)].remove(*sub),
            ),
    {
        let key = (publisher.id, publisher.index);
        if let Some(set) = dep_map_get(&self.pub_subs, key) {
            let smaller = list_without(&set, *sub);
            dep_map_insert(&mut self.pub_subs, key, smaller);
            proof {
                assert(self@ =~= old(self)@.insert(key_of(*publisher), old(self)@[key_of(*publisher)].remove(*sub)));
            }
        }
    }

    /// Forgets the piece `publisher`: nothing follows it any more, and it
    /// follows nothing.
    pub fn delete_id(&mut self, publisher: &GeometryId)
        requires
            old(self).wf(),
        ensures
            final(self).wf(),
            final(self)@ == Map::new(
                |k: (u128, usize)| old(self)@.contains_key(k) && k != key_of(*publisher),
                |k: (u128, usize)| old(self)@[k].remove(*publisher),
            ),
    {
        let key = (publisher.id, publisher.index);
        dep_map_remove(&mut self.pub_subs, key);
        proof {
            assert(self@ =~= old(self)@.remove(key));
        }
        let keys = dep_map_keys(&self.pub_subs);
        let ghost start = self@;
        let mut i: usize = 0;
        while i < keys.len()
            invariant
                self.wf(),
                i <= keys@.len(),
                keys@.no_duplicates(),
                keys@.to_set() == start.dom(),
                self@.dom() == start.dom(),
                start.dom() == old(self)@.dom().remove(key_of(*publisher)),
                forall|k: (u128, usize)| start.contains_key(k) ==> start[k] == old(self)@[k],
                forall|j: int| 0 <= j < i ==> #[trigger] self@[keys@[j]] == start[keys@[j]].remove(*publisher),
                forall|j: int| i <= j < keys@.len() ==> #[trigger] self@[keys@[j]] == start[keys@[j]],
            decreases keys@.len() - i,
        {
            let k = keys[i];
            proof {
                assert(keys@.to_set().contains(k));
            }
            if let Some(set) = dep_map_get(&self.pub_subs, k) {
                let smaller = list_without(&set, *publisher);
                let ghost before = self@;
                dep_map_insert(&mut self.pub_subs, k, smaller);
                proof {
                    assert(self@ =~= before.insert(k, before[k].remove(*publisher)));
                    assert forall|j: int| 0 <= j < keys@.len() && j != i implies keys@[j] != k by {
                    }
                }
            }
            i += 1;
        }
        proof {
            assert forall|k: (u128, usize)| self@.contains_key(k) implies self@[k] == old(self)@[k].remove(*publisher) by {
                assert(keys@.to_set().contains(k));
                let j = choose|j: int| 0 <= j < keys@.len() && #[trigger] keys@[j] == k;
                assert(self@[keys@[j]] == start[keys@[j]].remove(*publisher));
            }
            assert(self@ =~= Map::new(
                |k: (u128, usize)| old(self)@.contains_key(k) && k != key_of(*publisher),
                |k: (u128, usize)| old(self)@[k].remove(*publisher),
            ));
        }
    }

    /// The references from `id` to everything that follows it, found breadth
    /// first: the piece each reached and the piece it was reached from.
    fn breadth_first_search(&self, id: GeometryId) -> (r: Vec<Reference>)
        requires
            self.wf(),
        ensures
            bfs_result(self@, id, r@),
    {
        let ghost g = self@;
        let mut processing: VecDeque<GeometryId> = VecDeque::new();
        let mut visited: Vec<GeometryId> = Vec::new();
        let mut result: Vec<Reference> = Vec::new();
        visited.push(id);
        processing.push_back(id);
        let ghost mut head: int = 0;
        let ghost mut expanded: Set<(u128, usize)> = Set::empty();
        let ghost mut par: Seq<int> = Seq::empty();
        proof {
            assert(processing@ =~= visited@.subrange(0, 1));
            assert(visited@.no_duplicates());
        }
        while processing.len() > 0
            invariant
                self.wf(),
                g == self@,
                g.dom().finite(),
                visited@.len() == result@.len() + 1,
                visited@[0] == id,
                forall|i: int| 0 <= i < result@.len() ==> #[trigger] result@[i].owner == visited@[i + 1],
                visited@.no_duplicates(),
                0 <= head <= visited@.len(),
                processing@ == visited@.subrange(head, visited@.len() as int),
                forall|i: int| 0 <= i < result@.len() ==> edge(g, #[trigger] result@[i].other, result@[i].owner),
                forall|i: int| 0 <= i < result@.len() ==> exists|m: int| 0 <= m <= i && visited@[m] == #[trigger] result@[i].other,
                forall|m: int, s: GeometryId| 0 <= m < head && #[trigger] edge(g, visited@[m], s) ==> visited@.contains(s),
                forall|k: (u128, usize)| expanded.contains(k) <==> exists|m: int| 0 <= m < head && key_of(#[trigger] visited@[m]) == k,
                par.len() == result@.len(),
                forall|i: int| 0 <= i < result@.len() ==> 0 <= #[trigger] par[i] <= i && par[i] < head && visited@[par[i]] == result@[i].other,
                forall|i: int, j: int| 0 <= i < j < result@.len() ==> #[trigger] par[i] <= #[trigger] par[j],
                forall|i: int, m: int| 0 <= i < result@.len() && 0 <= m < par[i] ==> !edge(g, #[trigger] visited@[m], #[trigger] result@[i].owner),
            decreases g.dom().difference(expanded).len(), processing@.len(),
        {
            let ghost old_measure = g.dom().difference(expanded).len();
            let ghost old_len = processing@.len();
            let current = processing.pop_front().unwrap();
            let ghost cur_index = head;
            proof {
                assert(current == visited@[head]);
                head = head + 1;
                assert(processing@ =~= visited@.subrange(head, visited@.len() as int));
                if expanded.contains(key_of(current)) {
                    let m = choose|m: int| 0 <= m < head - 1 && key_of(#[trigger] visited@[m]) == key_of(current);
                    assert(visited@[m] == current);
                }
                let new_expanded = expanded.insert(key_of(current));
                assert forall|k: (u128, usize)| new_expanded.contains(k) <==> exists|m: int| 0 <= m < head && key_of(#[trigger] visited@[m]) == k by {
                    if k == key_of(current) {
                        assert(key_of(visited@[head - 1]) == k);
                    }
                    if exists|m: int| 0 <= m < head && key_of(#[trigger] visited@[m]) == k {
                        let m = choose|m: int| 0 <= m < head && key_of(#[trigger] visited@[m]) == k;
                        if m < head - 1 {
                            assert(expanded.contains(k));
                        }
                    }
                }
                if g.dom().contains(key_of(current)) {
                    assert(g.dom().difference(new_expanded) =~= g.dom().difference(expanded).remove(key_of(current)));
                } else {
                    assert(g.dom().difference(new_expanded) =~= g.dom().difference(expanded));
                }
                expanded = new_expanded;
            }
            let key = (current.id, current.index);
            let subs_opt = dep_map_get(&self.pub_subs, key);
            if let Some(subs) = subs_opt {
                proof {
                    assert(g.contains_key(key_of(current)));
                    assert(subs_of(g, current) == subs@.to_set());
                }
                let mut j: usize = 0;
                while j < subs.len()
                    invariant
                        self.wf(),
                        g == self@,
                        g.dom().finite(),
                        subs@.to_set() == subs_of(g, current),
                        current == visited@[cur_index],
                        cur_index == head - 1,
                        head >= 1,
                        j <= subs@.len(),
                        visited@.len() == result@.len() + 1,
                        visited@[0] == id,
                        forall|i: int| 0 <= i < result@.len() ==> #[trigger] result@[i].owner == visited@[i + 1],
                        visited@.no_duplicates(),
                        0 <= head <= visited@.len(),
                        processing@ == visited@.subrange(head, visited@.len() as int),
                        forall|i: int| 0 <= i < result@.len() ==> edge(g, #[trigger] result@[i].other, result@[i].owner),
                        forall|i: int| 0 <= i < result@.len() ==> exists|m: int| 0 <= m <= i && visited@[m] == #[trigger] result@[i].other,
                        forall|m: int, s: GeometryId| 0 <= m < head - 1 && #[trigger] edge(g, visited@[m], s) ==> visited@.contains(s),
                        forall|t: int| 0 <= t < j ==> visited@.contains(#[trigger] subs@[t]),
                        forall|k: (u128, usize)| expanded.contains(k) <==> exists|m: int| 0 <= m < head && key_of(#[trigger] visited@[m]) == k,
                        par.len() == result@.len(),
                        forall|i: int| 0 <= i < result@.len() ==> 0 <= #[trigger] par[i] <= i && par[i] < head && visited@[par[i]] == result@[i].other,
                        forall|i: int, j: int| 0 <= i < j < result@.len() ==> #[trigger] par[i] <= #[trigger] par[j],
                        forall|i: int, m: int| 0 <= i < result@.len() && 0 <= m < par[i] ==> !edge(g, #[trigger] visited@[m], #[trigger] result@[i].owner),
                    decreases subs@.len() - j,
                {
                    let sub = subs[j];
                    proof {
                        assert(subs@.to_set().contains(sub));
                    }
                    if !list_contains(&visited, sub) {
                        let ghost vbefore = visited@;
                        let ghost rbefore = result@;
                        proof {
                            lemma_push_to_set(vbefore, sub);
                        }
                        visited.push(sub);
                        result.push(Reference { owner: sub, other: current });
                        processing.push_back(sub);
                        proof {
                            let pbefore = par;
                            par = par.push(cur_index);
                            assert forall|i: int| 0 <= i < result@.len() implies 0 <= #[trigger] par[i] <= i && par[i] < head
                                && visited@[par[i]] == result@[i].other by {
                                if i < rbefore.len() {
                                    assert(par[i] == pbefore[i]);
                                    assert(visited@[par[i]] == vbefore[par[i]]);
                                }
                            }
                            assert forall|i: int, m: int| 0 <= i < result@.len() && 0 <= m < par[i] implies !edge(g, #[trigger] visited@[m], #[trigger] result@[i].owner) by {
                                assert(visited@[m] == vbefore[m]);
                                if i < rbefore.len() {
                                    assert(par[i] == pbefore[i]);
                                    assert(result@[i] == rbefore[i]);
                                } else {
                                    if edge(g, vbefore[m], sub) {
                                        assert(vbefore.contains(sub));
                                    }
                                }
                            }
                            assert(processing@ =~= visited@.subrange(head, visited@.len() as int));
                            let i = rbefore.len() as int;
                            assert(result@[i].other == visited@[cur_index]);
                            assert forall|t: int| 0 <= t < j + 1 implies visited@.contains(#[trigger] subs@[t]) by {
                                if t < j {
                                    let w = choose|w: int| 0 <= w < vbefore.len() && vbefore[w] == subs@[t];
                                    assert(visited@[w] == subs@[t]);
                                } else {
                                    assert(visited@[visited@.len() - 1] == subs@[t]);
                                }
                            }
                            assert forall|m: int, s: GeometryId| 0 <= m < head - 1 && #[trigger] edge(g, visited@[m], s) implies visited@.contains(s) by {
                                assert(vbefore[m] == visited@[m]);
                                if vbefore.contains(s) {
                                    let w = choose|w: int| 0 <= w < vbefore.len() && vbefore[w] == s;
                                    assert(visited@[w] == s);
                                }
                            }
                            assert forall|i: int| 0 <= i < result@.len() implies exists|m: int| 0 <= m <= i && visited@[m] == #[trigger] result@[i].other by {
                                if i < rbefore.len() {
                                    let m = choose|m: int| 0 <= m <= i && vbefore[m] == rbefore[i].other;
                                    assert(visited@[m] == result@[i].other);
                                } else {
                                    assert(visited@[cur_index] == result@[i].other);
                                }
                            }
                            assert forall|k: (u128, usize)| expanded.contains(k) <==> exists|m: int| 0 <= m < head && key_of(#[trigger] visited@[m]) == k by {
                                if expanded.contains(k) {
                                    let m = choose|m: int| 0 <= m < head && key_of(#[trigger] vbefore[m]) == k;
                                    assert(visited@[m] == vbefore[m]);
                                }
                                if exists|m: int| 0 <= m < head && key_of(#[trigger] visited@[m]) == k {
                                    let m = choose|m: int| 0 <= m < head && key_of(#[trigger] visited@[m]) == k;
                                    assert(visited@[m] == vbefore[m]);
                                }
                            }
                        }
                    }
                    j += 1;
                }
                proof {
                    assert forall|m: int, s: GeometryId| 0 <= m < head && #[trigger] edge(g, visited@[m], s) implies visited@.contains(s) by {
                        if m == head - 1 {
                            assert(subs@.to_set().contains(s));
                            let t = choose|t: int| 0 <= t < subs@.len() && subs@[t] == s;
                            assert(visited@.contains(subs@[t]));
                        }
                    }
                }
            } else {
                proof {
                    assert(!g.contains_key(key_of(current)));
                    assert forall|m: int, s: GeometryId| 0 <= m < head && #[trigger] edge(g, visited@[m], s) implies visited@.contains(s) by {
                        if m == head - 1 {
                            assert(subs_of(g, current) == Set::<GeometryId>::empty());
                        }
                    }
                    assert(processing@.len() < old_len);
                }
            }
        }
        proof {
            assert(processing@.len() == 0);
            assert(visited@.subrange(head, visited@.len() as int).len() == visited@.len() - head);
            assert(head == visited@.len());
            let v = visited@.to_set();
            assert forall|a: GeometryId, b: GeometryId| v.contains(a) && #[trigger] edge(g, a, b) implies v.contains(b) by {
                let m = choose|m: int| 0 <= m < visited@.len() && visited@[m] == a;
                assert(edge(g, visited@[m], b));
                assert(visited@.contains(b));
            }
            assert forall|n: GeometryId| #[trigger] reachable(g, id, n) && n != id
                implies exists|i: int| 0 <= i < result@.len() && #[trigger] result@[i].owner == n by {
                let p = choose|p: Seq<GeometryId>| #[trigger] is_path(g, p) && p[0] == id && p.last() == n;
                assert(v.contains(visited@[0]));
                lemma_closed_holds_path(g, v, p);
                let m = choose|m: int| 0 <= m < visited@.len() && visited@[m] == n;
                assert(m != 0);
                assert(result@[m - 1].owner == n);
            }
            assert forall|i: int| 0 <= i < result@.len() implies #[trigger] result@[i].owner != id by {
                assert(visited@[i + 1] != visited@[0]);
            }
            assert forall|i: int, j: int| 0 <= i < result@.len() && 0 <= j < result@.len() && i != j implies #[trigger] result@[i].owner
                != #[trigger] result@[j].owner by {
                assert(visited@[i + 1] != visited@[j + 1]);
            }
            assert forall|i: int| 0 <= i < result@.len() implies #[trigger] result@[i].other == id
                || exists|j: int| 0 <= j < i && result@[j].owner == result@[i].other by {
                let m = choose|m: int| 0 <= m <= i && visited@[m] == #[trigger] result@[i].other;
                if m > 0 {
                    assert(result@[m - 1].owner == result@[i].other);
                }
            }
            assert(reached(id, result@) =~= visited@);
            assert forall|i: int| 0 <= i < result@.len() implies position(reached(id, result@), #[trigger] result@[i].other) == par[i] by {
                lemma_position(visited@, par[i]);
            }
            assert forall|i: int, j: int| 0 <= i < j < result@.len() implies position(reached(id, result@), #[trigger] result@[i].other)
                <= position(reached(id, result@), #[trigger] result@[j].other) by {
                assert(par[i] <= par[j]);
            }
            assert forall|i: int, m: int| 0 <= i < result@.len() && 0 <= m < position(reached(id, result@), result@[i].other)
                implies !edge(g, #[trigger] reached(id, result@)[m], #[trigger] result@[i].owner) by {
                assert(position(reached(id, result@), result@[i].other) == par[i]);
            }
        }
        result
    }

    /// The references from each of `ids` to everything that follows it, each
    /// once, in the order the searches from `ids` in turn find them.
    pub fn get_all_deps(&self, ids: Vec<GeometryId>) -> (r: IndexSet<Reference>)
        requires
            self.wf(),
        ensures
            deps_result(self@, ids@, ordered_refs(r)),
            searches_result(self@, ids@, ordered_refs(r)),
    {
        let ghost g = self@;
        let mut results = refs_new();
        let ghost mut done: Seq<Seq<Reference>> = Seq::empty();
        proof {
            assert(ordered_refs(results) =~= Seq::<Reference>::empty());
        }
        let mut k: usize = 0;
        while k < ids.len()
            invariant
                self.wf(),
                g == self@,
                k <= ids@.len(),
                ordered_refs(results).no_duplicates(),
                forall|i: int| 0 <= i < ordered_refs(results).len() ==> edge(g, #[trigger] ordered_refs(results)[i].other, ordered_refs(results)[i].owner),
                forall|i: int| 0 <= i < ordered_refs(results).len() ==> ids@.contains(#[trigger] ordered_refs(results)[i].other)
                    || exists|j: int| 0 <= j < i && ordered_refs(results)[j].owner == ordered_refs(results)[i].other,
                forall|kk: int, n: GeometryId| 0 <= kk < k && #[trigger] reachable(g, ids@[kk], n) && n != ids@[kk]
                    ==> exists|i: int| 0 <= i < ordered_refs(results).len() && #[trigger] ordered_refs(results)[i].owner == n,
                done.len() == k,
                forall|kk: int| 0 <= kk < k ==> #[trigger] bfs_result(g, ids@[kk], done[kk]),
                ordered_refs(results) == first_union(done),
            decreases ids@.len() - k,
        {
            let found = self.breadth_first_search(ids[k]);
            let mut t: usize = 0;
            proof {
                assert(found@.take(0) =~= Seq::<Reference>::empty());
            }
            while t < found.len()
                invariant
                    self.wf(),
                    g == self@,
                    k < ids@.len(),
                    t <= found@.len(),
                    bfs_result(g, ids@[k as int], found@),
                    ordered_refs(results).no_duplicates(),
                    forall|i: int| 0 <= i < ordered_refs(results).len() ==> edge(g, #[trigger] ordered_refs(results)[i].other, ordered_refs(results)[i].owner),
                    forall|i: int| 0 <= i < ordered_refs(results).len() ==> ids@.contains(#[trigger] ordered_refs(results)[i].other)
                        || exists|j: int| 0 <= j < i && ordered_refs(results)[j].owner == ordered_refs(results)[i].other,
                    forall|kk: int, n: GeometryId| 0 <= kk < k && #[trigger] reachable(g, ids@[kk], n) && n != ids@[kk]
                        ==> exists|i: int| 0 <= i < ordered_refs(results).len() && #[trigger] ordered_refs(results)[i].owner == n,
                    forall|u: int| 0 <= u < t ==> ordered_refs(results).contains(#[trigger] found@[u]),
                    done.len() == k,
                    forall|kk: int| 0 <= kk < k ==> #[trigger] bfs_result(g, ids@[kk], done[kk]),
                    ordered_refs(results) == add_new(first_union(done), found@.take(t as int)),
                decreases found@.len() - t,
            {
                let item = found[t];
                let ghost before = ordered_refs(results);
                let added = refs_insert(&mut results, item);
                proof {
                    assert(found@.take(t + 1).drop_last() =~= found@.take(t as int));
                    assert(found@.take(t + 1).last() == item);
                    let after = ordered_refs(results);
                    if added {
                        let i = before.len() as int;
                        assert(after[i] == item);
                        assert(edge(g, found@[t as int].other, found@[t as int].owner));
                        assert forall|a: int, b: int| 0 <= a < after.len() && 0 <= b < after.len() && a != b implies after[a] != after[b] by {
                            if a < i && b < i {
                                assert(before[a] != before[b]);
                            } else if a == i && b < i {
                                assert(before.contains(before[b]));
                            } else if b == i && a < i {
                                assert(before.contains(before[a]));
                            }
                        }
                        if item.other != ids@[k as int] {
                            let u = choose|u: int| 0 <= u < t && found@[u].owner == found@[t as int].other;
                            assert(before.contains(found@[u]));
                            let j = choose|j: int| 0 <= j < before.len() && before[j] == found@[u];
                            assert(after[j].owner == after[i].other);
                        } else {
                            assert(ids@.contains(ids@[k as int]));
                        }
                        assert forall|i2: int| 0 <= i2 < after.len() implies ids@.contains(#[trigger] after[i2].other)
                            || exists|j: int| 0 <= j < i2 && after[j].owner == after[i2].other by {
                            if i2 < i {
                                assert(after[i2] == before[i2]);
                                if !ids@.contains(before[i2].other) {
                                    let j = choose|j: int| 0 <= j < i2 && before[j].owner == before[i2].other;
                                    assert(after[j] == before[j]);
                                }
                            }
                        }
                        assert forall|kk: int, n: GeometryId| 0 <= kk < k && #[trigger] reachable(g, ids@[kk], n) && n != ids@[kk]
                            implies exists|i2: int| 0 <= i2 < after.len() && #[trigger] after[i2].owner == n by {
                            let i2 = choose|i2: int| 0 <= i2 < before.len() && #[trigger] before[i2].owner == n;
                            assert(after[i2] == before[i2]);
                        }
                        assert forall|u: int| 0 <= u < t + 1 implies after.contains(#[trigger] found@[u]) by {
                            if u < t {
                                let j = choose|j: int| 0 <= j < before.len() && before[j] == found@[u];
                                assert(after[j] == found@[u]);
                            } else {
                                assert(after[i] == found@[u]);
                            }
                        }
                    } else {
                        assert(after.contains(found@[t as int]));
                    }
                }
                t += 1;
            }
            proof {
                let rs = ordered_refs(results);
                assert forall|kk: int, n: GeometryId| 0 <= kk < k + 1 && #[trigger] reachable(g, ids@[kk], n) && n != ids@[kk]
                    implies exists|i: int| 0 <= i < rs.len() && #[trigger] rs[i].owner == n by {
                    if kk == k {
                        let u = choose|u: int| 0 <= u < found@.len() && #[trigger] found@[u].owner == n;
                        assert(rs.contains(found@[u]));
                        let i = choose|i: int| 0 <= i < rs.len() && rs[i] == found@[u];
                        assert(rs[i].owner == n);
                    }
                }
                let done2 = done.push(found@);
                assert(done2.drop_last() =~= done);
                assert(found@.take(found@.len() as int) =~= found@);
                assert forall|kk: int| 0 <= kk < k + 1 implies #[trigger] bfs_result(g, ids@[kk], done2[kk]) by {
                    if kk < k {
                        assert(done2[kk] == done[kk]);
                    }
                }
                done = done2;
            }
            k += 1;
        }
        proof {
            assert(first_union(done) == ordered_refs(results));
        }
        results
    }

    /// Forgets what follows the pieces of the objects `ids`.
    pub fn delete_ids(&mut self, ids: &HashSet<RefID>)
        requires
            old(self).wf(),
        ensures
            final(self).wf(),
            final(self)@ == old(self)@.restrict(old(self)@.dom().filter(|k: (u128, usize)| !ids@.contains(k.0))),
    {
        broadcast use vstd::std_specs::hash::group_hash_axioms;
        let keys = dep_map_keys(&self.pub_subs);
        let mut i: usize = 0;
        while i < keys.len()
            invariant
                self.wf(),
                i <= keys@.len(),
                keys@.no_duplicates(),
                keys@.to_set() == old(self)@.dom(),
                forall|k: (u128, usize)| #[trigger] self@.contains_key(k) ==> self@[k] == old(self)@[k],
                forall|k: (u128, usize)| #[trigger] self@.contains_key(k) ==> old(self)@.contains_key(k),
                forall|j: int| 0 <= j < i ==> (#[trigger] self@.contains_key(keys@[j]) <==> !ids@.contains(keys@[j].0)),
                forall|j: int| i <= j < keys@.len() ==> #[trigger] self@.contains_key(keys@[j]),
            decreases keys@.len() - i,
        {
            let k = keys[i];
            proof {
                assert forall|j: int| 0 <= j < keys@.len() && j != i implies keys@[j] != k by {
                }
            }
            if ids.contains(&k.0) {
                let ghost before = self@;
                dep_map_remove(&mut self.pub_subs, k);
                proof {
                    assert(self@ =~= before.remove(k));
                }
            }
            i += 1;
        }
        proof {
            let expected = old(self)@.restrict(old(self)@.dom().filter(|k: (u128, usize)| !ids@.contains(k.0)));
            assert forall|k: (u128, usize)| self@.contains_key(k) <==> expected.contains_key(k) by {
                if old(self)@.contains_key(k) {
                    assert(keys@.to_set().contains(k));
                    let j = choose|j: int| 0 <= j < keys@.len() && #[trigger] keys@[j] == k;
                    assert(self@.contains_key(keys@[j]) <==> !ids@.contains(keys@[j].0));
                }
            }
            assert(self@ =~= expected);
        }
    }
}

} // verus!
