use flexi_cad::geometry_kernel::{GeometryId, Reference};
use flexi_cad::operation_manager::dep_manager::DependencyManager;
use indexmap::IndexSet;
use std::collections::HashSet;

fn new_v4() -> u128 {
    uuid::Uuid::new_v4().as_u128()
}

fn get_ref(owner: &GeometryId, other: &GeometryId) -> Reference {
    Reference { owner: owner.clone(), other: other.clone() }
}

fn set_exists_within_range(mut set: HashSet<Reference>, base: &IndexSet<Reference>, index: usize, size: usize) -> bool {
    for i in index..index + size {
        let entry = base.get_index(i).unwrap();
        set.remove(entry);
    }
    set.len() == 0
}

fn deps_equals(input: IndexSet<Reference>, answers: Vec<HashSet<Reference>>) -> bool {
    let mut cur_index = 0;
    for set in answers {
        let size = set.len();
        if !set_exists_within_range(set, &input, cur_index, size) {
            return false;
        }
        cur_index += size;
    }
    true
}

fn set_of(items: Vec<Reference>) -> HashSet<Reference> {
    items.into_iter().collect()
}

#[test]
fn test_get_all_deps() {
    let mut deps = DependencyManager::new();
    let a = new_v4();
    let a_0 = GeometryId::new(a.clone(), 0);
    let a_1 = GeometryId::new(a.clone(), 1);
    let a_2 = GeometryId::new(a.clone(), 2);
    let b = new_v4();
    let b_0 = GeometryId::new(b.clone(), 0);
    let b_1 = GeometryId::new(b.clone(), 1);
    let b_2 = GeometryId::new(b.clone(), 2);
    let c = new_v4();
    let c_0 = GeometryId::new(c.clone(), 0);
    let c_1 = GeometryId::new(c.clone(), 1);
    let c_2 = GeometryId::new(c.clone(), 2);

    deps.register_sub(&a_0, b_0.clone());
    deps.register_sub(&a_1, c_2.clone());
    deps.register_sub(&a_1, a_2.clone());
    deps.register_sub(&b_1, c_0.clone());
    deps.register_sub(&b_2, a_1.clone());
    deps.register_sub(&c_0, b_1.clone());
    deps.register_sub(&c_1, c_0.clone());
    deps.register_sub(&c_2, c_1.clone());

    let results = deps.get_all_deps(vec![a_0.clone()]);
    let answer = vec![set_of(vec![get_ref(&b_0, &a_0)])];
    assert!(deps_equals(results, answer));

    let results = deps.get_all_deps(vec![b_2.clone()]);
    let answer = vec![
        set_of(vec![get_ref(&a_1, &b_2)]),
        set_of(vec![get_ref(&a_2, &a_1), get_ref(&c_2, &a_1)]),
        set_of(vec![get_ref(&c_1, &c_2)]),
        set_of(vec![get_ref(&c_0, &c_1)]),
        set_of(vec![get_ref(&b_1, &c_0)]),
    ];
    assert!(deps_equals(results, answer));
}

#[test]
fn register_leaves_out_nil_and_self() {
    let mut deps = DependencyManager::new();
    let p = GeometryId::new(5, 0);
    deps.register_sub(&p, GeometryId::new(0, 1));
    deps.register_sub(&p, p);
    assert_eq!(deps.get_all_deps(vec![p]).len(), 0);
    deps.register_sub(&p, GeometryId::new(6, 0));
    deps.register_sub(&p, GeometryId::new(6, 0));
    assert_eq!(deps.get_all_deps(vec![p]).len(), 1);
}

#[test]
fn deleting_followers_and_pieces() {
    let mut deps = DependencyManager::new();
    let p = GeometryId::new(1, 0);
    let q = GeometryId::new(2, 0);
    let r = GeometryId::new(3, 0);
    deps.register_sub(&p, q);
    deps.register_sub(&q, r);
    assert_eq!(deps.get_all_deps(vec![p]).len(), 2);
    deps.delete_sub(&q, &r);
    assert_eq!(deps.get_all_deps(vec![p]).len(), 1);
    deps.register_sub(&q, r);
    deps.delete_id(&q);
    assert_eq!(deps.get_all_deps(vec![p]).len(), 0);
    assert_eq!(deps.get_all_deps(vec![q]).len(), 0);
    deps.register_sub(&p, q);
    deps.register_sub(&q, r);
    let mut gone = HashSet::new();
    gone.insert(2u128);
    deps.delete_ids(&gone);
    let found = deps.get_all_deps(vec![p]);
    assert_eq!(found.len(), 1);
    assert_eq!(*found.get_index(0).unwrap(), get_ref(&q, &p));
}

#[test]
fn cycles_end() {
    let mut deps = DependencyManager::new();
    let p = GeometryId::new(1, 0);
    let q = GeometryId::new(2, 0);
    deps.register_sub(&p, q);
    deps.register_sub(&q, p);
    // The start is visited already: the search stops at it.
    let found = deps.get_all_deps(vec![p]);
    assert_eq!(found.len(), 1);
    assert_eq!(*found.get_index(0).unwrap(), get_ref(&q, &p));
    // Two starts: each search is made from its own start.
    let found = deps.get_all_deps(vec![p, q]);
    assert_eq!(found.len(), 2);
    assert_eq!(*found.get_index(1).unwrap(), get_ref(&p, &q));
}

#[test]
fn debug_state_of_dependencies() {
    let mut deps = DependencyManager::new();
    let mut out = String::new();
    deps.debug_state(&mut out);
    assert_eq!(out, "0 Dependencies:\n");
    deps.register_sub(&GeometryId::new(1, 0), GeometryId::new(2, 3));
    let mut out = String::new();
    deps.debug_state(&mut out);
    assert_eq!(out, "1 Dependencies:\n00000000-0000-0000-0000-000000000001.0 -> 00000000-0000-0000-0000-000000000002.3\n");
}
