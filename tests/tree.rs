use std::collections::HashSet;

use requiem::graph::Direction;
use requiem::hrid::Hrid;
use requiem::requirement::{Parent, Requirement};
use requiem::tree::{LinkError, Tree};

fn new_uuid() -> u128 {
    uuid::Uuid::new_v4().as_u128()
}

fn hrid(s: &str) -> Hrid {
    Hrid::parse(s).unwrap()
}

fn req(uuid: u128, h: &str, content: &str) -> Requirement {
    Requirement::new(uuid, hrid(h), content.to_string())
}

#[test]
fn link_and_unlink() {
    let mut tree = Tree::default();
    let a = new_uuid();
    let b = new_uuid();
    let requirement_a = req(a, "A-001", "A");
    let fingerprint_a = requirement_a.fingerprint();
    tree.insert(requirement_a).unwrap();
    tree.insert(req(b, "B-001", "B")).unwrap();

    assert!(tree.link(b, a).is_ok());
    let parents = tree.parents(b);
    assert_eq!(parents.len(), 1);
    assert_eq!(parents[0].0, a);

    let removed = tree.unlink(b, a).unwrap();
    assert_eq!(removed, fingerprint_a);
    assert_eq!(tree.parents(b).len(), 0);
    assert!(tree.get(b).unwrap().parents().is_empty());
    assert_eq!(tree.unlink(b, a), None);
}

#[test]
fn detect_cycle() {
    let mut tree = Tree::default();
    let a = new_uuid();
    let b = new_uuid();

    tree.insert(req(a, "A-001", "A")).unwrap();
    tree.insert(req(b, "B-001", "B")).unwrap();

    assert!(tree.link(b, a).is_ok());
    let err = tree.link(a, b).unwrap_err();
    assert!(matches!(err, LinkError::WouldCreateCycle { .. }));
}

#[test]
fn failed_link_back_leaves_edges_unchanged() {
    let mut tree = Tree::default();
    let a = new_uuid();
    let b = new_uuid();
    tree.insert(req(a, "A-001", "A")).unwrap();
    tree.insert(req(b, "B-001", "B")).unwrap();
    tree.link(a, b).unwrap();
    assert_eq!(tree.link(b, a), Err(LinkError::WouldCreateCycle { child: b, parent: a }));
    assert_eq!(tree.parents(a).len(), 1);
    assert_eq!(tree.parents(b).len(), 0);
    assert_eq!(tree.children(b).len(), 1);
    assert_eq!(tree.children(a).len(), 0);
    assert!(tree.get(b).unwrap().parents().is_empty());
}

#[test]
fn link_errors() {
    let mut tree = Tree::default();
    let a = new_uuid();
    let missing = new_uuid();
    tree.insert(req(a, "A-001", "A")).unwrap();
    assert_eq!(tree.link(a, a), Err(LinkError::SelfReference(a)));
    assert_eq!(tree.link(missing, a), Err(LinkError::RequirementNotFound(missing)));
    assert_eq!(tree.link(a, missing), Err(LinkError::RequirementNotFound(missing)));
}

#[test]
fn topo_sort_order() {
    let mut tree = Tree::default();
    let a = new_uuid();
    let b = new_uuid();
    let c = new_uuid();

    tree.insert(req(a, "A-001", "A")).unwrap();
    tree.insert(req(b, "B-001", "B")).unwrap();
    tree.insert(req(c, "C-001", "C")).unwrap();

    tree.link(b, a).unwrap();
    tree.link(c, b).unwrap();

    let order = tree.topological_order().unwrap();
    let pos = |x| order.iter().position(|&id| id == x).unwrap();
    assert!(pos(c) < pos(b) && pos(b) < pos(a));
    assert_eq!(order.len(), 3);
    assert!(tree.cycles().is_empty());
}

#[test]
fn ancestors_and_descendants() {
    let mut tree = Tree::default();
    let a = new_uuid();
    let b = new_uuid();
    let c = new_uuid();

    tree.insert(req(a, "A-001", "A")).unwrap();
    tree.insert(req(b, "B-001", "B")).unwrap();
    tree.insert(req(c, "C-001", "C")).unwrap();

    tree.link(b, a).unwrap();
    tree.link(c, b).unwrap();

    let ancestors: HashSet<_> = tree.ancestors(c).into_iter().collect();
    let descendants: HashSet<_> = tree.descendants(a).into_iter().collect();

    assert!(ancestors.contains(&b));
    assert!(ancestors.contains(&a));
    assert!(descendants.contains(&b));
    assert!(descendants.contains(&c));
    assert_eq!(ancestors, HashSet::from([a, b]));
    assert_eq!(descendants, HashSet::from([b, c]));
}

#[test]
fn ancestors_descendants_with_branching() {
    let mut tree = Tree::default();
    let a = new_uuid();
    let b = new_uuid();
    let c = new_uuid();
    let d = new_uuid();

    // a <- b, a <- c, b <- d  (edges: child -> parent)
    for (id, name) in [(a, "A-001"), (b, "B-001"), (c, "C-001"), (d, "D-001")] {
        tree.insert(req(id, name, name)).unwrap();
    }
    tree.link(b, a).unwrap();
    tree.link(c, a).unwrap();
    tree.link(d, b).unwrap();

    let ancs_of_d: HashSet<_> = tree.ancestors(d).into_iter().collect();
    assert!(ancs_of_d.contains(&b));
    assert!(ancs_of_d.contains(&a));
    assert!(!ancs_of_d.contains(&d));
    let desc_of_a: HashSet<_> = tree.descendants(a).into_iter().collect();
    for id in [b, c, d] {
        assert!(desc_of_a.contains(&id));
    }
}

#[test]
fn diamond_is_walked_once() {
    let mut tree = Tree::default();
    let ids: Vec<u128> = (0..4).map(|_| new_uuid()).collect();
    for (i, id) in ids.iter().enumerate() {
        tree.insert(req(*id, &format!("N-{}", i + 1), "x")).unwrap();
    }
    // 3 -> 1 -> 0, 3 -> 2 -> 0
    tree.link(ids[1], ids[0]).unwrap();
    tree.link(ids[2], ids[0]).unwrap();
    tree.link(ids[3], ids[1]).unwrap();
    tree.link(ids[3], ids[2]).unwrap();
    let anc = tree.ancestors(ids[3]);
    assert_eq!(anc.len(), 3);
    let desc = tree.descendants(ids[0]);
    assert_eq!(desc.len(), 3);
    assert_eq!(Direction::Outgoing, Direction::Outgoing);
}

#[test]
fn test_insert_and_lookup() {
    let mut tree = Tree::default();
    let uuid = new_uuid();
    let hrid = Hrid::parse("R-001").unwrap();
    tree.insert(Requirement::new(uuid, hrid.clone(), String::new())).unwrap();

    let retrieved = tree.get(uuid).unwrap();
    assert_eq!(retrieved.uuid(), uuid);
    assert_eq!(retrieved.hrid(), &hrid);
}

#[test]
fn reinsert_returns_previous_and_keeps_links() {
    let mut tree = Tree::default();
    let p = new_uuid();
    let c = new_uuid();
    assert!(tree.insert_or_replace(req(p, "P-001", "parent")).is_none());
    assert!(tree.insert_or_replace(req(c, "C-001", "child")).is_none());
    tree.link(c, p).unwrap();
    let previous = tree.insert_or_replace(req(c, "C-002", "child v2")).unwrap();
    assert_eq!(previous.content(), "child");
    assert_eq!(previous.hrid(), &hrid("C-001"));
    assert_eq!(tree.len(), 2);
    let now = tree.get(c).unwrap();
    assert_eq!(now.content(), "child v2");
    assert_eq!(now.parents().len(), 1);
    assert_eq!(tree.parents(c).len(), 1);
}

fn child_with_stale_parent(parent_hrid: &str, recorded: &str) -> (Tree, u128, u128) {
    let mut tree = Tree::default();
    let parent_uuid = new_uuid();
    let child_uuid = new_uuid();
    tree.insert(req(parent_uuid, parent_hrid, "")).unwrap();
    tree.insert(req(child_uuid, "C-001", "")).unwrap();
    tree.link_recorded(
        child_uuid,
        parent_uuid,
        Parent { hrid: hrid(recorded), fingerprint: String::new() },
    )
    .unwrap();
    (tree, parent_uuid, child_uuid)
}

#[test]
fn test_update_hrids_corrects_parent_hrids() {
    let (mut tree, _parent_uuid, child_uuid) = child_with_stale_parent("P-001", "WRONG-001");

    let updated = tree.update_hrids();
    assert_eq!(updated, vec![child_uuid]);

    let updated_child = tree.get(child_uuid).unwrap();
    let (_, actual_parent) = &updated_child.parents()[0];
    assert_eq!(actual_parent.hrid, Hrid::parse("P-001").unwrap());
}

#[test]
fn test_update_hrids_no_change() {
    let (mut tree, _, _) = child_with_stale_parent("P-001", "P-001");
    let updated = tree.update_hrids();
    assert!(updated.is_empty());
}

#[test]
fn update_hrids_twice_touches_nothing_the_second_time() {
    let (mut tree, _, child) = child_with_stale_parent("P-002", "P-001");
    assert_eq!(tree.update_hrids(), vec![child]);
    assert!(tree.update_hrids().is_empty());
}

#[test]
fn renamed_parent_is_repaired_and_fingerprint_kept() {
    let mut tree = Tree::default();
    let p = new_uuid();
    let c = new_uuid();
    tree.insert(req(p, "P-001", "parent text")).unwrap();
    tree.insert(req(c, "C-001", "child text")).unwrap();
    tree.link(c, p).unwrap();
    let fingerprint = tree.get(c).unwrap().parents()[0].1.fingerprint.clone();
    // The parent is renamed.
    tree.insert_or_replace(req(p, "P-002", "parent text"));
    assert_eq!(tree.get(c).unwrap().parents()[0].1.hrid, hrid("P-001"));
    assert_eq!(tree.update_hrids(), vec![c]);
    let (_, parent) = &tree.get(c).unwrap().parents()[0];
    assert_eq!(parent.hrid, hrid("P-002"));
    assert_eq!(parent.fingerprint, fingerprint);
    assert_eq!(tree.parents(c)[0].1, fingerprint);
}

#[test]
fn counters_follow_inserted_ids() {
    let mut tree = Tree::default();
    let kind = "REQ".to_string();
    assert_eq!(tree.next_index(&kind), Some(1));
    tree.insert(req(new_uuid(), "REQ-005", "")).unwrap();
    assert_eq!(tree.latest_id(&kind), 5);
    assert_eq!(tree.next_index(&kind), Some(6));
    tree.insert(req(new_uuid(), "REQ-002", "")).unwrap();
    assert_eq!(tree.next_index(&kind), Some(6));
    tree.insert(req(new_uuid(), "NS-REQ-009", "")).unwrap();
    assert_eq!(tree.next_index(&kind), Some(10));
}

#[test]
fn fingerprint_is_fnv1a_hex() {
    let r = req(1, "A-001", "");
    assert_eq!(r.fingerprint(), "cbf29ce484222325");
    let r = req(1, "A-001", "a");
    assert_eq!(r.fingerprint(), "af63dc4c8601ec8c");
    assert_ne!(req(1, "A-001", "A").fingerprint(), req(1, "A-001", "B").fingerprint());
}

#[test]
fn uuids_and_requirements_in_insertion_order() {
    let mut tree = Tree::default();
    assert!(tree.is_empty());
    let ids = [new_uuid(), new_uuid()];
    tree.insert(req(ids[0], "A-001", "")).unwrap();
    tree.insert(req(ids[1], "A-002", "")).unwrap();
    assert_eq!(tree.uuids(), ids.to_vec());
    assert!(tree.contains(ids[1]));
    assert!(!tree.contains(ids[0] ^ ids[1] ^ 1));
    assert_eq!(tree.requirements().len(), 2);
}

#[test]
fn with_capacity_and_requirement_lookup() {
    let mut tree = Tree::with_capacity(8);
    assert!(tree.is_empty());
    let u = new_uuid();
    tree.insert(req(u, "A-001", "body")).unwrap();
    assert_eq!(tree.requirement(u).unwrap().content(), "body");
    assert!(tree.requirement(u ^ 1).is_none());
}

#[test]
fn insert_refuses_a_present_uuid() {
    let mut tree = Tree::default();
    let u = new_uuid();
    tree.insert(req(u, "R-001", "first")).unwrap();
    let refused = tree.insert(req(u, "R-002", "second")).unwrap_err();
    assert_eq!(refused.content(), "second");
    assert_eq!(tree.len(), 1);
    assert_eq!(tree.get(u).unwrap().content(), "first");
    assert_eq!(tree.get(u).unwrap().hrid(), &hrid("R-001"));
}

#[test]
fn replaced_requirement_is_returned_as_stored() {
    let mut tree = Tree::default();
    let p = new_uuid();
    let c = new_uuid();
    tree.insert(req(p, "P-001", "parent")).unwrap();
    tree.insert(req(c, "C-001", "child")).unwrap();
    tree.link(c, p).unwrap();
    let previous = tree.insert_or_replace(req(c, "C-002", "child v2")).unwrap();
    assert_eq!(previous.parents().len(), 1);
    assert_eq!(previous.parents()[0].0, p);
    assert_eq!(tree.get(c).unwrap().parents().len(), 1);
}
