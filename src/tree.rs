//! The requirements graph: every requirement keyed by UUID, the child→parent
//! edges weighted by the parent's fingerprint at link time, and the per-kind
//! high-water marks of HRID ids.

use crate::graph::{
    graph_add_edge, graph_add_node, graph_edges, graph_edges_directed, graph_has_path, graph_new,
    graph_nodes, graph_remove_edge, graph_sccs, graph_toposort, has_cycle, is_walk, reaches, step,
    Direction, EdgeGraph,
};
use crate::hrid::valid_model;
use crate::index::{counter_of, counters_unique, Index};
use crate::requirement::{
    fingerprint_of, has_parent, Parent, ParentModel, Requirement, RequirementModel,
};
use std::collections::HashMap;
use vstd::prelude::*;

verus! {

broadcast use vstd::std_specs::hash::group_hash_axioms;

/// Mathematical model of a tree.
pub struct TreeModel {
    /// The requirements, in insertion order.
    pub nodes: Seq<RequirementModel>,
    /// The edges, child to parent, each with the fingerprint recorded at link time.
    pub edges: Map<(u128, u128), Seq<char>>,
    /// The highest id seen for each kind, one entry per kind.
    pub counters: Seq<(Seq<char>, usize)>,
}

pub open spec fn has_node(nodes: Seq<RequirementModel>, u: u128) -> bool {
    exists|i: int| 0 <= i < nodes.len() && (#[trigger] nodes[i]).uuid == u
}

/// Node `i` links to parent `p` with the recorded `fingerprint`.
pub open spec fn links_to(nodes: Seq<RequirementModel>, i: int, p: u128, fingerprint: Seq<char>) -> bool {
    exists|k: int|
        0 <= k < nodes[i].parents.len() && (#[trigger] nodes[i].parents[k]).0 == p
            && nodes[i].parents[k].1.fingerprint == fingerprint
}

impl TreeModel {
    pub open spec fn contains(self, u: u128) -> bool {
        has_node(self.nodes, u)
    }

    /// The requirement with UUID `u`.
    pub open spec fn node(self, u: u128) -> RequirementModel {
        self.nodes[choose|i: int| 0 <= i < self.nodes.len() && (#[trigger] self.nodes[i]).uuid == u]
    }

    /// The UUIDs, in insertion order.
    pub open spec fn uuids(self) -> Seq<u128> {
        self.nodes.map_values(|n: RequirementModel| n.uuid)
    }

    pub open spec fn counter(self, kind: Seq<char>) -> nat {
        counter_of(self.counters, kind)
    }

    /// The tree's invariants: UUIDs are unique; every requirement is well
    /// formed with a valid HRID; every parent link names a requirement of the
    /// tree, and the edges are exactly the parent links, weighted by the
    /// recorded fingerprints; one counter per kind.
    pub open spec fn wf(self) -> bool {
        &&& forall|i: int, j: int|
            0 <= i < j < self.nodes.len() ==> (#[trigger] self.nodes[i]).uuid != (#[trigger] self.nodes[j]).uuid
        &&& forall|i: int|
            0 <= i < self.nodes.len() ==> (#[trigger] self.nodes[i]).wf() && valid_model(
                self.nodes[i].hrid,
            )
        &&& forall|i: int, k: int|
            0 <= i < self.nodes.len() && 0 <= k < self.nodes[i].parents.len() ==> has_node(
                self.nodes,
                (#[trigger] self.nodes[i].parents[k]).0,
            ) && self.edges.contains_key((self.nodes[i].uuid, self.nodes[i].parents[k].0))
                && self.edges[(self.nodes[i].uuid, self.nodes[i].parents[k].0)]
                == self.nodes[i].parents[k].1.fingerprint
        &&& forall|c: u128, p: u128| #[trigger]
            self.edges.contains_key((c, p)) ==> exists|i: int|
                0 <= i < self.nodes.len() && (#[trigger] self.nodes[i]).uuid == c && links_to(
                    self.nodes,
                    i,
                    p,
                    self.edges[(c, p)],
                )
        &&& counters_unique(self.counters)
        &&& !has_cycle(self.edges)
    }
}

/// Errors of [`Tree::link`].
#[derive(Debug, Clone, Copy, PartialEq, Eq)]
pub enum LinkError {
    /// No requirement has this UUID.
    RequirementNotFound(u128),
    /// A requirement cannot be its own parent.
    SelfReference(u128),
    /// The parent already descends from the child.
    WouldCreateCycle { child: u128, parent: u128 },
}

/// What linking `child` to `parent` yields on a tree.
pub open spec fn link_outcome(m: TreeModel, child: u128, parent: u128) -> Result<(), LinkError> {
    if child == parent {
        Err(LinkError::SelfReference(child))
    } else if !m.contains(child) {
        Err(LinkError::RequirementNotFound(child))
    } else if !m.contains(parent) {
        Err(LinkError::RequirementNotFound(parent))
    } else if reaches(m.edges, Direction::Outgoing, parent, child) {
        Err(LinkError::WouldCreateCycle { child, parent })
    } else {
        Ok(())
    }
}

/// The requirements graph.
pub struct Tree {
    graph: EdgeGraph,
    nodes: Vec<Requirement>,
    /// The position of each requirement in `nodes`, by UUID.
    index: HashMap<u128, usize>,
    counters: Index,
}

/// `index` maps each UUID of `nodes` to its position, and nothing else.
pub open spec fn index_ok(index: Map<u128, usize>, nodes: Seq<RequirementModel>) -> bool {
    &&& forall|u: u128| #[trigger] index.contains_key(u) <==> has_node(nodes, u)
    &&& forall|u: u128|
        #[trigger] index.contains_key(u) ==> index[u] < nodes.len() && nodes[index[u] as int].uuid == u
}

/// The positions stay right while the UUID at each position stays.
proof fn lemma_index_same_uuids(index: Map<u128, usize>, a: Seq<RequirementModel>, b: Seq<RequirementModel>)
    requires
        index_ok(index, a),
        a.len() == b.len(),
        forall|j: int| 0 <= j < a.len() ==> (#[trigger] a[j]).uuid == b[j].uuid,
    ensures
        index_ok(index, b),
{
    assert forall|u: u128| #[trigger] index.contains_key(u) <==> has_node(b, u) by {
        if has_node(a, u) {
            let j = choose|j: int| 0 <= j < a.len() && (#[trigger] a[j]).uuid == u;
            assert(b[j].uuid == u);
        }
        if has_node(b, u) {
            let j = choose|j: int| 0 <= j < b.len() && (#[trigger] b[j]).uuid == u;
            assert(a[j].uuid == u);
        }
    }
    assert forall|u: u128| #[trigger] index.contains_key(u) implies index[u] < b.len() && b[index[u] as int].uuid == u by {
        assert(a[index[u] as int].uuid == u);
    }
}

impl View for Tree {
    type V = TreeModel;

    closed spec fn view(&self) -> TreeModel {
        TreeModel {
            nodes: self.nodes@.map_values(|r: Requirement| r@),
            edges: graph_edges(self.graph),
            counters: self.counters@,
        }
    }
}

impl Tree {
    pub closed spec fn wf(&self) -> bool {
        &&& self@.wf()
        &&& forall|u: u128| #[trigger] graph_nodes(self.graph).contains(u) <==> self@.contains(u)
        &&& index_ok(self.index@, self@.nodes)
    }

    /// A well-formed tree has a well-formed model.
    pub proof fn lemma_model_wf(&self)
        requires
            self.wf(),
        ensures
            self@.wf(),
    {
    }

    /// An empty tree.
    pub fn new() -> (r: Tree)
        ensures
            r.wf(),
            r@.nodes.len() == 0,
            r@.edges.dom().is_empty(),
            r@.counters.len() == 0,
    {
        let r = Tree { graph: graph_new(), nodes: Vec::new(), index: HashMap::new(), counters: Index::new() };
        assert(r@.nodes =~= Seq::<RequirementModel>::empty());
        assert(r@.counters =~= Seq::<(Seq<char>, usize)>::empty());
        r
    }

    /// The position of the requirement with UUID `u`.
    fn find(&self, u: u128) -> (r: Option<usize>)
        requires
            self.wf(),
        ensures
            r is None <==> !self@.contains(u),
            r matches Some(i) ==> i < self@.nodes.len() && self@.nodes[i as int].uuid == u,
    {
        match self.index.get(&u) {
            Some(i) => Some(*i),
            None => None,
        }
    }

    /// Whether a requirement has UUID `u`.
    pub fn contains(&self, u: u128) -> (r: bool)
        requires
            self.wf(),
        ensures
            r == self@.contains(u),
    {
        self.find(u).is_some()
    }

    /// The requirement with UUID `u`, if any.
    pub fn get(&self, u: u128) -> (r: Option<&Requirement>)
        requires
            self.wf(),
        ensures
            r is None <==> !self@.contains(u),
            r matches Some(x) ==> x@ == self@.node(u) && x@.uuid == u,
    {
        match self.find(u) {
            Some(i) => {
                proof {
                    self.lemma_node(i as int);
                }
                Some(&self.nodes[i])
            },
            None => None,
        }
    }

    proof fn lemma_node(&self, i: int)
        requires
            self.wf(),
            0 <= i < self@.nodes.len(),
        ensures
            self@.node(self@.nodes[i].uuid) == self@.nodes[i],
            self@.contains(self@.nodes[i].uuid),
    {
        let u = self@.nodes[i].uuid;
        let j = choose|j: int| 0 <= j < self@.nodes.len() && (#[trigger] self@.nodes[j]).uuid == u;
        if j != i {
            if j < i {
                assert(self@.nodes[j].uuid != self@.nodes[i].uuid);
            } else {
                assert(self@.nodes[i].uuid != self@.nodes[j].uuid);
            }
        }
    }

    /// The number of requirements.
    pub fn len(&self) -> (r: usize)
        ensures
            r == self@.nodes.len(),
    {
        self.nodes.len()
    }

    pub fn is_empty(&self) -> (r: bool)
        ensures
            r == (self@.nodes.len() == 0),
    {
        self.nodes.len() == 0
    }

    /// The UUIDs of all requirements, in insertion order.
    pub fn uuids(&self) -> (r: Vec<u128>)
        ensures
            r@ == self@.uuids(),
    {
        let mut r: Vec<u128> = Vec::new();
        let mut i: usize = 0;
        while i < self.nodes.len()
            invariant
                i <= self.nodes@.len(),
                r@ == self@.uuids().take(i as int),
            decreases self.nodes@.len() - i,
        {
            r.push(self.nodes[i].uuid());
            i = i + 1;
            assert(r@ =~= self@.uuids().take(i as int));
        }
        assert(r@ =~= self@.uuids());
        r
    }

    /// The requirements, in insertion order.
    pub fn requirements(&self) -> (r: &Vec<Requirement>)
        ensures
            r@.map_values(|x: Requirement| x@) == self@.nodes,
    {
        &self.nodes
    }

    /// The highest id recorded for `kind` (zero if none).
    pub fn latest_id(&self, kind: &String) -> (r: usize)
        requires
            self.wf(),
        ensures
            r == self@.counter(kind@),
    {
        self.counters.latest_id(kind)
    }

    /// The id the next requirement of `kind` would get: one more than the
    /// highest recorded, or `None` when that would not fit.
    pub fn next_index(&self, kind: &String) -> (r: Option<usize>)
        requires
            self.wf(),
        ensures
            r is Some <==> self@.counter(kind@) < usize::MAX,
            r matches Some(n) ==> n == self@.counter(kind@) + 1,
    {
        let latest = self.latest_id(kind);
        latest.checked_add(1)
    }

    /// The per-kind counters.
    pub fn counters(&self) -> (r: &Index)
        requires
            self.wf(),
        ensures
            r@ == self@.counters,
            r.wf(),
    {
        &self.counters
    }

    /// Raises the counter for `kind` to at least `id`.
    pub fn raise_counter(&mut self, kind: &String, id: usize)
        requires
            old(self).wf(),
        ensures
            final(self).wf(),
            final(self)@.nodes == old(self)@.nodes,
            final(self)@.edges == old(self)@.edges,
            forall|k: Seq<char>|
                #![trigger final(self)@.counter(k)]
                final(self)@.counter(k) == if k == kind@ {
                    if old(self)@.counter(k) < id {
                        id as nat
                    } else {
                        old(self)@.counter(k)
                    }
                } else {
                    old(self)@.counter(k)
                },
    {
        self.counters.raise(kind, id);
        assert(self@.nodes =~= old(self)@.nodes);
        assert(self@.edges == old(self)@.edges);
        assert(counters_unique(self@.counters));
    }
}

/// `after` is `before` with node `ci`'s link to `p` set to `par` (replacing
/// an earlier link to `p`, or added last) and the edge `(child, p)` weighted
/// by `par`'s fingerprint.
pub open spec fn linked(before: TreeModel, after: TreeModel, ci: int, p: u128, par: ParentModel) -> bool {
    let old_parents = before.nodes[ci].parents;
    &&& after.counters == before.counters
    &&& after.edges == before.edges.insert((before.nodes[ci].uuid, p), par.fingerprint)
    &&& after.nodes.len() == before.nodes.len()
    &&& forall|j: int| 0 <= j < before.nodes.len() && j != ci ==> #[trigger] after.nodes[j] == before.nodes[j]
    &&& after.nodes[ci].uuid == before.nodes[ci].uuid
    &&& after.nodes[ci].hrid == before.nodes[ci].hrid
    &&& after.nodes[ci].content == before.nodes[ci].content
    &&& after.nodes[ci].tags == before.nodes[ci].tags
    &&& after.nodes[ci].created == before.nodes[ci].created
    &&& forall|k: int|
        0 <= k < old_parents.len() && (#[trigger] old_parents[k]).0 == p ==> after.nodes[ci].parents
            == old_parents.update(k, (p, par))
    &&& !has_parent(old_parents, p) ==> after.nodes[ci].parents == old_parents.push((p, par))
}

/// The tree with `child` linked to `parent`, recording `par`: the child's
/// link to `parent` is set to `par` (in place, or added last) and the edge
/// `(child, parent)` is weighted by `par`'s fingerprint.
pub open spec fn with_link(m: TreeModel, child: u128, parent: u128, par: ParentModel) -> TreeModel {
    let ci = choose|i: int| 0 <= i < m.nodes.len() && (#[trigger] m.nodes[i]).uuid == child;
    let ps = m.nodes[ci].parents;
    let nps = if has_parent(ps, parent) {
        ps.update(choose|k: int| 0 <= k < ps.len() && (#[trigger] ps[k]).0 == parent, (parent, par))
    } else {
        ps.push((parent, par))
    };
    TreeModel {
        nodes: m.nodes.update(ci, RequirementModel { parents: nps, ..m.nodes[ci] }),
        edges: m.edges.insert((child, parent), par.fingerprint),
        counters: m.counters,
    }
}

/// A link as `linked` describes it is [`with_link`].
pub proof fn lemma_linked_is_with_link(before: TreeModel, after: TreeModel, ci: int, p: u128, par: ParentModel)
    requires
        before.wf(),
        0 <= ci < before.nodes.len(),
        linked(before, after, ci, p, par),
    ensures
        after == with_link(before, before.nodes[ci].uuid, p, par),
{
    let c = before.nodes[ci].uuid;
    let w = with_link(before, c, p, par);
    let cj = choose|i: int| 0 <= i < before.nodes.len() && (#[trigger] before.nodes[i]).uuid == c;
    assert(cj == ci) by {
        if cj < ci {
            assert(before.nodes[cj].uuid != before.nodes[ci].uuid);
        } else if ci < cj {
            assert(before.nodes[ci].uuid != before.nodes[cj].uuid);
        }
    }
    let ps = before.nodes[ci].parents;
    assert(after.nodes[ci].parents == w.nodes[ci].parents) by {
        if has_parent(ps, p) {
            let k = choose|k: int| 0 <= k < ps.len() && (#[trigger] ps[k]).0 == p;
            assert(after.nodes[ci].parents == ps.update(k, (p, par)));
        }
    }
    assert(after.nodes[ci] == w.nodes[ci]);
    assert(after.nodes =~= w.nodes);
}

/// `after` is `before` with `child` linked to `parent`, recording the
/// parent's current HRID and fingerprint.
pub open spec fn linked_to_current(before: TreeModel, after: TreeModel, child: u128, parent: u128) -> bool {
    exists|ci: int|
        0 <= ci < before.nodes.len() && (#[trigger] before.nodes[ci]).uuid == child && linked(
            before,
            after,
            ci,
            parent,
            ParentModel {
                hrid: before.node(parent).hrid,
                fingerprint: fingerprint_of(before.node(parent).content),
            },
        )
}

impl Tree {
    proof fn lemma_find_unique(&self, i: int, j: int)
        requires
            self.wf(),
            0 <= i < self@.nodes.len(),
            0 <= j < self@.nodes.len(),
            self@.nodes[i].uuid == self@.nodes[j].uuid,
        ensures
            i == j,
    {
        if i < j {
            assert(self@.nodes[i].uuid != self@.nodes[j].uuid);
        } else if j < i {
            assert(self@.nodes[j].uuid != self@.nodes[i].uuid);
        }
    }

    /// Inserts a fresh requirement, one with no parent links yet and a UUID
    /// not in the tree: it is added last and the counter of its HRID's kind
    /// is raised to at least its id. A requirement whose UUID is present is
    /// refused and handed back, the tree unchanged.
    pub fn insert(&mut self, requirement: Requirement) -> (r: Result<(), Requirement>)
        requires
            old(self).wf(),
            requirement.wf(),
            valid_model(requirement@.hrid),
            requirement@.parents.len() == 0,
        ensures
            final(self).wf(),
            r is Err <==> old(self)@.contains(requirement@.uuid),
            r matches Err(x) ==> x@ == requirement@ && final(self)@ == old(self)@,
            r is Ok ==> final(self)@.nodes == old(self)@.nodes.push(requirement@),
            r is Ok ==> final(self)@.edges == old(self)@.edges,
            r is Ok ==> forall|k: Seq<char>|
                #![trigger final(self)@.counter(k)]
                final(self)@.counter(k) == if k == requirement@.hrid.kind {
                    if old(self)@.counter(k) < requirement@.hrid.id {
                        requirement@.hrid.id
                    } else {
                        old(self)@.counter(k)
                    }
                } else {
                    old(self)@.counter(k)
                },
    {
        if self.contains(requirement.uuid()) {
            return Err(requirement);
        }
        let _ = self.insert_or_replace(requirement);
        Ok(())
    }

    /// Inserts a requirement that has no parent links yet, replacing any with
    /// the same UUID.
    ///
    /// A requirement with a new UUID is added last. One whose UUID is present
    /// takes the place of the stored requirement, which is returned as it
    /// was; the parent links, being the graph's edges, stay in place and are
    /// carried over to the new one. Either way the counter of the HRID's kind
    /// is raised to at least its id.
    pub fn insert_or_replace(&mut self, requirement: Requirement) -> (r: Option<Requirement>)
        requires
            old(self).wf(),
            requirement.wf(),
            valid_model(requirement@.hrid),
            requirement@.parents.len() == 0,
        ensures
            final(self).wf(),
            final(self)@.edges == old(self)@.edges,
            r is None <==> !old(self)@.contains(requirement@.uuid),
            !old(self)@.contains(requirement@.uuid) ==> final(self)@.nodes == old(self)@.nodes.push(
                requirement@,
            ),
            forall|i: int|
                0 <= i < old(self)@.nodes.len() && (#[trigger] old(self)@.nodes[i]).uuid
                    == requirement@.uuid ==> final(self)@.nodes == old(self)@.nodes.update(
                    i,
                    RequirementModel { parents: old(self)@.nodes[i].parents, ..requirement@ },
                ) && (r matches Some(x) && x@ == old(self)@.nodes[i]),
            forall|k: Seq<char>|
                #![trigger final(self)@.counter(k)]
                final(self)@.counter(k) == if k == requirement@.hrid.kind {
                    if old(self)@.counter(k) < requirement@.hrid.id {
                        requirement@.hrid.id
                    } else {
                        old(self)@.counter(k)
                    }
                } else {
                    old(self)@.counter(k)
                },
    {
        let u = requirement.uuid();
        let kind = requirement.hrid().kind.clone();
        let id = requirement.hrid().id;
        assert(kind@ == requirement@.hrid.kind);
        assert(id as nat == requirement@.hrid.id);
        self.raise_counter(&kind, id);
        let ghost mid = self@;
        let ghost mid_index = self.index@;
        let r = match self.find(u) {
            None => {
                let pos = self.nodes.len();
                self.nodes.push(requirement);
                self.index.insert(u, pos);
                graph_add_node(&mut self.graph, u);
                proof {
                    assert(self@.nodes =~= mid.nodes.push(requirement@));
                    let n = mid.nodes.len() as int;
                    assert(self@.nodes[n].uuid == u);
                    assert forall|x: u128| #[trigger] self.index@.contains_key(x) implies self.index@[x] < self@.nodes.len()
                        && self@.nodes[self.index@[x] as int].uuid == x by {
                        if x != u {
                            assert(mid_index.contains_key(x));
                            assert(self@.nodes[mid_index[x] as int] == mid.nodes[mid_index[x] as int]);
                        }
                    }
                    assert forall|x: u128| #[trigger] self.index@.contains_key(x) <==> has_node(self@.nodes, x) by {
                        if has_node(self@.nodes, x) && x != u {
                            let i = choose|i: int| 0 <= i < self@.nodes.len() && (#[trigger] self@.nodes[i]).uuid == x;
                            assert(i != n);
                            assert(mid.nodes[i] == self@.nodes[i]);
                            assert(has_node(mid.nodes, x));
                        }
                        if x != u && mid_index.contains_key(x) {
                            assert(has_node(mid.nodes, x));
                            let i = choose|i: int| 0 <= i < mid.nodes.len() && (#[trigger] mid.nodes[i]).uuid == x;
                            assert(self@.nodes[i] == mid.nodes[i]);
                        }
                    }
                    assert forall|i: int, j: int|
                        0 <= i < j < self@.nodes.len() implies (#[trigger] self@.nodes[i]).uuid
                        != (#[trigger] self@.nodes[j]).uuid by {
                        if j == n {
                            assert(self@.nodes[i] == mid.nodes[i]);
                        } else {
                            assert(self@.nodes[i] == mid.nodes[i]);
                            assert(self@.nodes[j] == mid.nodes[j]);
                        }
                    }
                    assert forall|x: u128| has_node(mid.nodes, x) implies has_node(self@.nodes, x) by {
                        let i = choose|i: int| 0 <= i < mid.nodes.len() && (#[trigger] mid.nodes[i]).uuid == x;
                        assert(self@.nodes[i] == mid.nodes[i]);
                    }
                    assert forall|x: u128| #[trigger] graph_nodes(self.graph).contains(x) <==> self@.contains(x) by {
                        if has_node(self@.nodes, x) && x != u {
                            let i = choose|i: int| 0 <= i < self@.nodes.len() && (#[trigger] self@.nodes[i]).uuid == x;
                            assert(i != n);
                            assert(mid.nodes[i] == self@.nodes[i]);
                        }
                    }
                    assert forall|c: u128, p: u128| #[trigger]
                        self@.edges.contains_key((c, p)) implies exists|i: int|
                            0 <= i < self@.nodes.len() && (#[trigger] self@.nodes[i]).uuid == c && links_to(
                                self@.nodes,
                                i,
                                p,
                                self@.edges[(c, p)],
                            ) by {
                        let i = choose|i: int|
                            0 <= i < mid.nodes.len() && (#[trigger] mid.nodes[i]).uuid == c && links_to(
                                mid.nodes,
                                i,
                                p,
                                mid.edges[(c, p)],
                            );
                        assert(self@.nodes[i] == mid.nodes[i]);
                        let k = choose|k: int|
                            0 <= k < mid.nodes[i].parents.len() && (#[trigger] mid.nodes[i].parents[k]).0 == p
                                && mid.nodes[i].parents[k].1.fingerprint == mid.edges[(c, p)];
                        assert(self@.nodes[i].parents[k].0 == p);
                    }
                    assert forall|i: int, k: int|
                        0 <= i < self@.nodes.len() && 0 <= k < self@.nodes[i].parents.len() implies has_node(
                            self@.nodes,
                            (#[trigger] self@.nodes[i].parents[k]).0,
                        ) by {
                        assert(i < n);
                        assert(self@.nodes[i] == mid.nodes[i]);
                    }
                }
                None
            },
            Some(i) => {
                let mut old_req = self.nodes.remove(i);
                let mut incoming = requirement;
                incoming.swap_parents(&mut old_req);
                let kept = incoming.parents_copy();
                old_req.set_parents(kept);
                self.nodes.insert(i, incoming);
                proof {
                    let newn = RequirementModel { parents: mid.nodes[i as int].parents, ..requirement@ };
                    assert(self@.nodes =~= mid.nodes.update(i as int, newn));
                    lemma_index_same_uuids(self.index@, mid.nodes, self@.nodes);
                    assert forall|i2: int, j: int|
                        0 <= i2 < j < self@.nodes.len() implies (#[trigger] self@.nodes[i2]).uuid
                        != (#[trigger] self@.nodes[j]).uuid by {
                        assert(mid.nodes[i2].uuid != mid.nodes[j].uuid);
                    }
                    assert forall|x: u128| #[trigger] has_node(self@.nodes, x) <==> has_node(mid.nodes, x) by {
                        if has_node(mid.nodes, x) {
                            let j = choose|j: int| 0 <= j < mid.nodes.len() && (#[trigger] mid.nodes[j]).uuid == x;
                            assert(self@.nodes[j].uuid == x);
                        }
                        if has_node(self@.nodes, x) {
                            let j = choose|j: int| 0 <= j < self@.nodes.len() && (#[trigger] self@.nodes[j]).uuid == x;
                            assert(mid.nodes[j].uuid == x);
                        }
                    }
                    assert forall|x: u128| #[trigger] graph_nodes(self.graph).contains(x) <==> self@.contains(x) by {
                        assert(has_node(self@.nodes, x) <==> has_node(mid.nodes, x));
                    }
                    assert forall|c: u128, p: u128| #[trigger]
                        self@.edges.contains_key((c, p)) implies exists|j: int|
                            0 <= j < self@.nodes.len() && (#[trigger] self@.nodes[j]).uuid == c && links_to(
                                self@.nodes,
                                j,
                                p,
                                self@.edges[(c, p)],
                            ) by {
                        let j = choose|j: int|
                            0 <= j < mid.nodes.len() && (#[trigger] mid.nodes[j]).uuid == c && links_to(
                                mid.nodes,
                                j,
                                p,
                                mid.edges[(c, p)],
                            );
                        let k = choose|k: int|
                            0 <= k < mid.nodes[j].parents.len() && (#[trigger] mid.nodes[j].parents[k]).0 == p
                                && mid.nodes[j].parents[k].1.fingerprint == mid.edges[(c, p)];
                        assert(self@.nodes[j].parents[k] == mid.nodes[j].parents[k]);
                    }
                    assert forall|j: int, k: int|
                        0 <= j < self@.nodes.len() && 0 <= k < self@.nodes[j].parents.len() implies has_node(
                            self@.nodes,
                            (#[trigger] self@.nodes[j].parents[k]).0,
                        ) && self@.edges.contains_key((self@.nodes[j].uuid, self@.nodes[j].parents[k].0))
                            && self@.edges[(self@.nodes[j].uuid, self@.nodes[j].parents[k].0)]
                            == self@.nodes[j].parents[k].1.fingerprint by {
                        assert(self@.nodes[j].parents[k] == mid.nodes[j].parents[k]);
                        assert(self@.nodes[j].uuid == mid.nodes[j].uuid);
                        assert(has_node(mid.nodes, mid.nodes[j].parents[k].0));
                    }
                    assert forall|i2: int|
                        0 <= i2 < old(self)@.nodes.len() && (#[trigger] old(self)@.nodes[i2]).uuid == u implies i2
                        == i by {
                        assert(old(self)@.nodes[i2] == mid.nodes[i2]);
                        self.lemma_unique_in(mid, i2, i as int);
                    }
                    assert(requirement@.parents =~= Seq::<(u128, ParentModel)>::empty());
                    assert(old_req@ == mid.nodes[i as int]);
                }
                Some(old_req)
            },
        };
        assert(self@.counters == mid.counters);
        assert forall|k: Seq<char>| #[trigger] self@.counter(k) == mid.counter(k) by {}
        r
    }

    proof fn lemma_unique_in(&self, m: TreeModel, i: int, j: int)
        requires
            m.wf(),
            0 <= i < m.nodes.len(),
            0 <= j < m.nodes.len(),
            m.nodes[i].uuid == m.nodes[j].uuid,
        ensures
            i == j,
    {
        if i < j {
            assert(m.nodes[i].uuid != m.nodes[j].uuid);
        } else if j < i {
            assert(m.nodes[j].uuid != m.nodes[i].uuid);
        }
    }
}

/// Joining a walk from `x` to `y` and one from `y` to `z` gives a walk
/// from `x` to `z`.
proof fn lemma_walk_join(e: Map<(u128, u128), Seq<char>>, a: Seq<u128>, b: Seq<u128>)
    requires
        is_walk(e, Direction::Outgoing, a),
        is_walk(e, Direction::Outgoing, b),
        a.last() == b[0],
    ensures
        is_walk(e, Direction::Outgoing, a + b.drop_first()),
        (a + b.drop_first())[0] == a[0],
        (a + b.drop_first()).last() == b.last(),
        (a + b.drop_first()).len() == a.len() + b.len() - 1,
{
    let w = a + b.drop_first();
    assert forall|i: int| 0 <= i < w.len() - 1 implies step(e, Direction::Outgoing, #[trigger] w[i], w[i + 1]) by {
        if i < a.len() - 1 {
            assert(w[i] == a[i] && w[i + 1] == a[i + 1]);
        } else if i == a.len() - 1 {
            assert(w[i] == b[0]);
            assert(w[i + 1] == b[1]);
        } else {
            let j = i - a.len() + 1;
            assert(w[i] == b[j] && w[i + 1] == b[j + 1]);
        }
    }
    if b.len() == 1 {
        assert(w =~= a);
    } else {
        assert(w.last() == b.drop_first().last());
    }
}

/// A walk in `e` with one more edge `(c, p)` is a walk in `e`, or splits
/// into a walk in `e` to `c` and a walk in `e` from `p`.
proof fn lemma_walk_split(e: Map<(u128, u128), Seq<char>>, c: u128, p: u128, fp: Seq<char>, w: Seq<u128>)
    requires
        is_walk(e.insert((c, p), fp), Direction::Outgoing, w),
    ensures
        is_walk(e, Direction::Outgoing, w) || (reaches(e, Direction::Outgoing, w[0], c) && reaches(
            e,
            Direction::Outgoing,
            p,
            w.last(),
        )),
    decreases w.len(),
{
    let e2 = e.insert((c, p), fp);
    if w.len() == 1 {
        assert forall|i: int| 0 <= i < w.len() - 1 implies step(e, Direction::Outgoing, #[trigger] w[i], w[i + 1]) by {}
    } else {
        let w0 = w.drop_last();
        assert forall|i: int| 0 <= i < w0.len() - 1 implies step(e2, Direction::Outgoing, #[trigger] w0[i], w0[i + 1]) by {
            assert(w0[i] == w[i] && w0[i + 1] == w[i + 1]);
            assert(step(e2, Direction::Outgoing, w[i], w[i + 1]));
        }
        lemma_walk_split(e, c, p, fp, w0);
        let y = w.last();
        let x = w0.last();
        assert(w[w.len() - 2] == x);
        assert(step(e2, Direction::Outgoing, w[w.len() - 2], w[w.len() - 1]));
        if e.contains_key((x, y)) {
            if is_walk(e, Direction::Outgoing, w0) {
                assert forall|i: int| 0 <= i < w.len() - 1 implies step(e, Direction::Outgoing, #[trigger] w[i], w[i + 1]) by {
                    if i < w.len() - 2 {
                        assert(w0[i] == w[i] && w0[i + 1] == w[i + 1]);
                    }
                }
            } else {
                let q = choose|q: Seq<u128>| #[trigger] is_walk(e, Direction::Outgoing, q) && q[0] == p && q.last() == x;
                let q2 = q.push(y);
                assert forall|i: int| 0 <= i < q2.len() - 1 implies step(e, Direction::Outgoing, #[trigger] q2[i], q2[i + 1]) by {
                    if i < q.len() - 1 {
                        assert(q2[i] == q[i] && q2[i + 1] == q[i + 1]);
                    } else {
                        assert(q2[i] == x);
                    }
                }
                assert(is_walk(e, Direction::Outgoing, q2) && q2[0] == p && q2.last() == y);
            }
        } else {
            assert(x == c && y == p);
            let one = seq![p];
            assert(is_walk(e, Direction::Outgoing, one));
            if is_walk(e, Direction::Outgoing, w0) {
                assert(w0[0] == w[0]);
                assert(is_walk(e, Direction::Outgoing, w0) && w0[0] == w[0] && w0.last() == c);
            }
        }
    }
}

/// Adding the edge `(c, p)` where `c` is not reachable from `p` keeps a
/// graph acyclic.
proof fn lemma_add_edge_acyclic(e: Map<(u128, u128), Seq<char>>, c: u128, p: u128, fp: Seq<char>)
    requires
        !has_cycle(e),
        !reaches(e, Direction::Outgoing, p, c),
    ensures
        !has_cycle(e.insert((c, p), fp)),
{
    let e2 = e.insert((c, p), fp);
    if has_cycle(e2) {
        let w = choose|w: Seq<u128>| #[trigger] is_walk(e2, Direction::Outgoing, w) && w.len() >= 2 && w[0] == w.last();
        lemma_walk_split(e, c, p, fp, w);
        if is_walk(e, Direction::Outgoing, w) {
            assert(has_cycle(e));
        } else {
            let a = choose|a: Seq<u128>| #[trigger] is_walk(e, Direction::Outgoing, a) && a[0] == p && a.last() == w.last();
            let b = choose|b: Seq<u128>| #[trigger] is_walk(e, Direction::Outgoing, b) && b[0] == w[0] && b.last() == c;
            lemma_walk_join(e, a, b);
            assert(is_walk(e, Direction::Outgoing, a + b.drop_first()));
        }
    }
}

/// Removing an edge keeps a graph acyclic.
proof fn lemma_remove_edge_acyclic(e: Map<(u128, u128), Seq<char>>, k: (u128, u128))
    requires
        !has_cycle(e),
    ensures
        !has_cycle(e.remove(k)),
{
    let e2 = e.remove(k);
    if has_cycle(e2) {
        let w = choose|w: Seq<u128>| #[trigger] is_walk(e2, Direction::Outgoing, w) && w.len() >= 2 && w[0] == w.last();
        assert forall|i: int| 0 <= i < w.len() - 1 implies step(e, Direction::Outgoing, #[trigger] w[i], w[i + 1]) by {
            assert(step(e2, Direction::Outgoing, w[i], w[i + 1]));
        }
        assert(is_walk(e, Direction::Outgoing, w));
    }
}

proof fn lemma_linked_wf(before: TreeModel, after: TreeModel, ci: int, p: u128, par: ParentModel)
    requires
        before.wf(),
        0 <= ci < before.nodes.len(),
        has_node(before.nodes, p),
        linked(before, after, ci, p, par),
        after.nodes[ci].wf(),
        !reaches(before.edges, Direction::Outgoing, p, before.nodes[ci].uuid),
    ensures
        after.wf(),
        forall|x: u128| #[trigger] has_node(after.nodes, x) <==> has_node(before.nodes, x),
{
    lemma_add_edge_acyclic(before.edges, before.nodes[ci].uuid, p, par.fingerprint);
    let c = before.nodes[ci].uuid;
    let op = before.nodes[ci].parents;
    let np = after.nodes[ci].parents;
    assert forall|x: u128| #[trigger] has_node(after.nodes, x) <==> has_node(before.nodes, x) by {
        if has_node(before.nodes, x) {
            let j = choose|j: int| 0 <= j < before.nodes.len() && (#[trigger] before.nodes[j]).uuid == x;
            assert(after.nodes[j].uuid == x);
        }
        if has_node(after.nodes, x) {
            let j = choose|j: int| 0 <= j < after.nodes.len() && (#[trigger] after.nodes[j]).uuid == x;
            assert(before.nodes[j].uuid == x);
        }
    }
    // Every link of the new child is an old link or the new one.
    assert forall|k: int| 0 <= k < np.len() implies (#[trigger] np[k]).0 == p && np[k].1 == par || (
    exists|k2: int| 0 <= k2 < op.len() && op[k2] == np[k] && op[k2].0 != p) by {
        if has_parent(op, p) {
            let kk = choose|kk: int| 0 <= kk < op.len() && (#[trigger] op[kk]).0 == p;
            assert(np == op.update(kk, (p, par)));
            if k != kk {
                assert(np[k] == op[k]);
                if op[k].0 == p {
                    assert(op[k].0 != op[kk].0);
                }
            }
        } else {
            assert(np == op.push((p, par)));
            if k < op.len() {
                assert(np[k] == op[k]);
                assert(op[k].0 != p);
            }
        }
    }
    // Every old link other than to `p` is kept.
    assert forall|k2: int| 0 <= k2 < op.len() && (#[trigger] op[k2]).0 != p implies exists|k: int|
        0 <= k < np.len() && np[k] == op[k2] by {
        if has_parent(op, p) {
            let kk = choose|kk: int| 0 <= kk < op.len() && (#[trigger] op[kk]).0 == p;
            assert(np == op.update(kk, (p, par)));
            assert(np[k2] == op[k2]);
        } else {
            assert(np == op.push((p, par)));
            assert(np[k2] == op[k2]);
        }
    }
    assert(exists|k: int| 0 <= k < np.len() && np[k].0 == p && np[k].1 == par) by {
        if has_parent(op, p) {
            let kk = choose|kk: int| 0 <= kk < op.len() && (#[trigger] op[kk]).0 == p;
            assert(np[kk] == (p, par));
        } else {
            assert(np[op.len() as int] == (p, par));
        }
    }
    assert forall|i: int, j: int|
        0 <= i < j < after.nodes.len() implies (#[trigger] after.nodes[i]).uuid != (#[trigger] after.nodes[j]).uuid by {
        assert(before.nodes[i].uuid != before.nodes[j].uuid);
    }
    assert forall|i: int| 0 <= i < after.nodes.len() implies (#[trigger] after.nodes[i]).wf() && valid_model(
        after.nodes[i].hrid,
    ) by {
        assert(before.nodes[i].wf() && valid_model(before.nodes[i].hrid));
    }
    assert forall|i: int, k: int|
        0 <= i < after.nodes.len() && 0 <= k < after.nodes[i].parents.len() implies has_node(
            after.nodes,
            (#[trigger] after.nodes[i].parents[k]).0,
        ) && after.edges.contains_key((after.nodes[i].uuid, after.nodes[i].parents[k].0))
            && after.edges[(after.nodes[i].uuid, after.nodes[i].parents[k].0)]
            == after.nodes[i].parents[k].1.fingerprint by {
        if i == ci {
            if np[k].0 == p && np[k].1 == par {
            } else {
                let k2 = choose|k2: int| 0 <= k2 < op.len() && op[k2] == np[k] && op[k2].0 != p;
                assert(before.nodes[ci].parents[k2] == np[k]);
            }
        } else {
            assert(after.nodes[i] == before.nodes[i]);
            assert(before.nodes[i].parents[k] == after.nodes[i].parents[k]);
            if before.nodes[i].uuid == c {
                assert(before.nodes[i].uuid != before.nodes[ci].uuid) by {
                    if i < ci {
                        assert(before.nodes[i].uuid != before.nodes[ci].uuid);
                    } else {
                        assert(before.nodes[ci].uuid != before.nodes[i].uuid);
                    }
                }
            }
        }
    }
    assert forall|x: u128, y: u128| #[trigger] after.edges.contains_key((x, y)) implies exists|i: int|
        0 <= i < after.nodes.len() && (#[trigger] after.nodes[i]).uuid == x && links_to(
            after.nodes,
            i,
            y,
            after.edges[(x, y)],
        ) by {
        if x == c && y == p {
            let k = choose|k: int| 0 <= k < np.len() && np[k].0 == p && np[k].1 == par;
            assert(after.nodes[ci].parents[k].0 == y);
            assert(after.nodes[ci].uuid == x);
        } else {
            assert(before.edges.contains_key((x, y)));
            let i = choose|i: int|
                0 <= i < before.nodes.len() && (#[trigger] before.nodes[i]).uuid == x && links_to(
                    before.nodes,
                    i,
                    y,
                    before.edges[(x, y)],
                );
            let k2 = choose|k2: int|
                0 <= k2 < before.nodes[i].parents.len() && (#[trigger] before.nodes[i].parents[k2]).0 == y
                    && before.nodes[i].parents[k2].1.fingerprint == before.edges[(x, y)];
            if i == ci {
                assert(op[k2].0 != p);
                let k = choose|k: int| 0 <= k < np.len() && np[k] == op[k2];
                assert(after.nodes[i].parents[k].0 == y);
            } else {
                assert(after.nodes[i] == before.nodes[i]);
                assert(after.nodes[i].parents[k2].0 == y);
            }
        }
    }
}

impl Tree {
    /// Links `child` to `parent`, recording `recorded` as what the child knows
    /// of the parent.
    ///
    /// Fails, changing nothing, when the two are the same requirement, when
    /// either is absent, or when `parent` already descends from `child` (the
    /// edge would close a cycle). Otherwise the edge `(child, parent)` is set
    /// to the recorded fingerprint and the child's link to the parent is set
    /// to `recorded`.
    pub fn link_recorded(&mut self, child: u128, parent: u128, recorded: Parent) -> (r: Result<(), LinkError>)
        requires
            old(self).wf(),
        ensures
            final(self).wf(),
            r == link_outcome(old(self)@, child, parent),
            r is Err ==> final(self)@ == old(self)@,
            r is Ok ==> exists|ci: int|
                0 <= ci < old(self)@.nodes.len() && (#[trigger] old(self)@.nodes[ci]).uuid == child
                    && linked(old(self)@, final(self)@, ci, parent, recorded@),
    {
        if child == parent {
            return Err(LinkError::SelfReference(child));
        }
        let ci = match self.find(child) {
            Some(ci) => ci,
            None => {
                return Err(LinkError::RequirementNotFound(child));
            },
        };
        if self.find(parent).is_none() {
            return Err(LinkError::RequirementNotFound(parent));
        }
        if graph_has_path(&self.graph, parent, child) {
            return Err(LinkError::WouldCreateCycle { child, parent });
        }
        let ghost before = self@;
        let fingerprint = recorded.fingerprint.clone();
        let _ = graph_add_edge(&mut self.graph, child, parent, fingerprint);
        let mut node = self.nodes.remove(ci);
        let _ = node.add_parent(parent, recorded);
        self.nodes.insert(ci, node);
        proof {
            assert(self@.nodes =~= before.nodes.update(ci as int, node@));
            assert(linked(before, self@, ci as int, parent, recorded@));
            lemma_linked_wf(before, self@, ci as int, parent, recorded@);
            assert forall|x: u128| #[trigger] graph_nodes(self.graph).contains(x) <==> self@.contains(x) by {
                assert(has_node(self@.nodes, x) <==> has_node(before.nodes, x));
            }
        }
        Ok(())
    }

    /// Links `child` to `parent`, recording the parent's current HRID and
    /// fingerprint; fails as [`Tree::link_recorded`] does.
    pub fn link(&mut self, child: u128, parent: u128) -> (r: Result<(), LinkError>)
        requires
            old(self).wf(),
        ensures
            final(self).wf(),
            r == link_outcome(old(self)@, child, parent),
            r is Err ==> final(self)@ == old(self)@,
            r is Ok ==> exists|ci: int|
                0 <= ci < old(self)@.nodes.len() && (#[trigger] old(self)@.nodes[ci]).uuid == child
                    && linked(
                    old(self)@,
                    final(self)@,
                    ci,
                    parent,
                    ParentModel {
                        hrid: old(self)@.node(parent).hrid,
                        fingerprint: fingerprint_of(old(self)@.node(parent).content),
                    },
                ),
    {
        match self.get(parent) {
            Some(p) => {
                let recorded = Parent { hrid: p.hrid().copied(), fingerprint: p.fingerprint() };
                self.link_recorded(child, parent, recorded)
            },
            None => {
                if child == parent {
                    return Err(LinkError::SelfReference(child));
                }
                if self.find(child).is_none() {
                    return Err(LinkError::RequirementNotFound(child));
                }
                Err(LinkError::RequirementNotFound(parent))
            },
        }
    }
}

/// Once `a` has been linked to `b`, linking `b` to `a` fails with a cycle
/// error; and a failed link leaves the tree as it was.
pub proof fn lemma_link_back_fails(m0: TreeModel, m1: TreeModel, ci: int, a: u128, b: u128, par: ParentModel)
    requires
        m0.wf(),
        link_outcome(m0, a, b) is Ok,
        0 <= ci < m0.nodes.len(),
        m0.nodes[ci].uuid == a,
        linked(m0, m1, ci, b, par),
        m1.wf(),
    ensures
        link_outcome(m1, b, a) == Err::<(), LinkError>(LinkError::WouldCreateCycle { child: b, parent: a }),
{
    assert(m1.edges.contains_key((a, b)));
    let w = seq![a, b];
    assert(is_walk(m1.edges, Direction::Outgoing, w));
    assert(has_node(m1.nodes, a)) by {
        assert(m1.nodes[ci].uuid == a);
    }
    assert(has_node(m1.nodes, b)) by {
        let j = choose|j: int| 0 <= j < m0.nodes.len() && (#[trigger] m0.nodes[j]).uuid == b;
        if j == ci {
        } else {
            assert(m1.nodes[j] == m0.nodes[j]);
        }
    }
}

/// The components among the first `n` with more than one node, in order.
pub open spec fn several(all: Seq<Seq<u128>>, n: int) -> Seq<Seq<u128>>
    decreases n,
{
    if n <= 0 {
        Seq::<Seq<u128>>::empty()
    } else if all[n - 1].len() > 1 {
        several(all, n - 1).push(all[n - 1])
    } else {
        several(all, n - 1)
    }
}

proof fn lemma_several(all: Seq<Seq<u128>>, n: int)
    requires
        0 <= n <= all.len(),
    ensures
        forall|k: int| 0 <= k < several(all, n).len() ==> (#[trigger] several(all, n)[k]).len() > 1
            && exists|j: int| 0 <= j < n && several(all, n)[k] == all[j],
        forall|j: int| 0 <= j < n && (#[trigger] all[j]).len() > 1 ==> exists|k: int|
            0 <= k < several(all, n).len() && several(all, n)[k] == all[j],
    decreases n,
{
    if n > 0 {
        lemma_several(all, n - 1);
        let p = several(all, n - 1);
        let q = several(all, n);
        if all[n - 1].len() > 1 {
            assert forall|k: int| 0 <= k < q.len() implies (#[trigger] q[k]).len() > 1 && exists|j: int|
                0 <= j < n && q[k] == all[j] by {
                if k < p.len() {
                    assert(q[k] == p[k]);
                } else {
                    assert(q[k] == all[n - 1]);
                }
            }
            assert forall|j: int| 0 <= j < n && (#[trigger] all[j]).len() > 1 implies exists|k: int|
                0 <= k < q.len() && q[k] == all[j] by {
                if j < n - 1 {
                    let k = choose|k: int| 0 <= k < p.len() && p[k] == all[j];
                    assert(q[k] == p[k]);
                } else {
                    assert(q[p.len() as int] == all[j]);
                }
            }
        }
    }
}

/// The components of more than one node, in order.
fn components_with_several(all: &Vec<Vec<u128>>) -> (r: Vec<Vec<u128>>)
    ensures
        r@.map_values(|c: Vec<u128>| c@) == several(all@.map_values(|c: Vec<u128>| c@), all@.len() as int),
{
    let ghost allv = all@.map_values(|c: Vec<u128>| c@);
    let mut r: Vec<Vec<u128>> = Vec::new();
    let mut i: usize = 0;
    while i < all.len()
        invariant
            i <= all@.len(),
            allv == all@.map_values(|c: Vec<u128>| c@),
            r@.map_values(|c: Vec<u128>| c@) == several(allv, i as int),
        decreases all@.len() - i,
    {
        let ghost before = r@;
        assert(allv[i as int] == all@[i as int]@);
        if all[i].len() > 1 {
            let c = all[i].clone();
            assert(c@ == all@[i as int]@);
            r.push(c);
            assert(r@.map_values(|c: Vec<u128>| c@) =~= before.map_values(|c: Vec<u128>| c@).push(allv[i as int]));
        }
        i = i + 1;
    }
    r
}

impl Tree {
    /// The direct parents of `u`, each once, with the fingerprint recorded on
    /// the edge.
    pub fn parents(&self, u: u128) -> (r: Vec<(u128, String)>)
        requires
            self.wf(),
        ensures
            forall|i: int|
                0 <= i < r@.len() ==> self@.edges.contains_key((u, (#[trigger] r@[i]).0))
                    && r@[i].1@ == self@.edges[(u, r@[i].0)],
            forall|p: u128|
                self@.edges.contains_key((u, p)) ==> exists|i: int| 0 <= i < r@.len() && (#[trigger] r@[i]).0 == p,
            forall|i: int, j: int| 0 <= i < j < r@.len() ==> (#[trigger] r@[i]).0 != (#[trigger] r@[j]).0,
    {
        let r = graph_edges_directed(&self.graph, u, Direction::Outgoing);
        assert forall|p: u128| self@.edges.contains_key((u, p)) implies exists|i: int|
            0 <= i < r@.len() && (#[trigger] r@[i]).0 == p by {
            assert(step(self@.edges, Direction::Outgoing, u, p));
        }
        r
    }

    /// The direct children of `u`, each once, with the fingerprint recorded
    /// on the edge.
    pub fn children(&self, u: u128) -> (r: Vec<(u128, String)>)
        requires
            self.wf(),
        ensures
            forall|i: int|
                0 <= i < r@.len() ==> self@.edges.contains_key(((#[trigger] r@[i]).0, u))
                    && r@[i].1@ == self@.edges[(r@[i].0, u)],
            forall|c: u128|
                self@.edges.contains_key((c, u)) ==> exists|i: int| 0 <= i < r@.len() && (#[trigger] r@[i]).0 == c,
            forall|i: int, j: int| 0 <= i < j < r@.len() ==> (#[trigger] r@[i]).0 != (#[trigger] r@[j]).0,
    {
        let r = graph_edges_directed(&self.graph, u, Direction::Incoming);
        assert forall|c: u128| self@.edges.contains_key((c, u)) implies exists|i: int|
            0 <= i < r@.len() && (#[trigger] r@[i]).0 == c by {
            assert(step(self@.edges, Direction::Incoming, u, c));
        }
        r
    }

    /// All UUIDs, each child before its parents; or, when the edges hold a
    /// cycle (which linking never creates), a UUID of the tree to report.
    pub fn topological_order(&self) -> (r: Result<Vec<u128>, Vec<u128>>)
        requires
            self.wf(),
        ensures
            r is Ok <==> !has_cycle(self@.edges),
            r is Ok,
            r matches Ok(v) ==> v@.no_duplicates() && v@.to_set() =~= self@.uuids().to_set() && forall|
                i: int,
                j: int,
            |
                0 <= i < v@.len() && 0 <= j < v@.len() && #[trigger] self@.edges.contains_key(
                    (v@[i], v@[j]),
                ) ==> i < j,
            r matches Err(w) ==> w@.len() == 1 && self@.contains(w@[0]) && crate::graph::on_cycle(
                self@.edges,
                w@[0],
            ),
    {
        match graph_toposort(&self.graph) {
            Ok(v) => {
                proof {
                    assert forall|x: u128| v@.to_set().contains(x) <==> self@.uuids().to_set().contains(x) by {
                        if self@.contains(x) {
                            let i = choose|i: int| 0 <= i < self@.nodes.len() && (#[trigger] self@.nodes[i]).uuid == x;
                            assert(self@.uuids()[i] == x);
                        }
                        if self@.uuids().to_set().contains(x) {
                            let i = choose|i: int| 0 <= i < self@.uuids().len() && self@.uuids()[i] == x;
                            assert(self@.nodes[i].uuid == x);
                        }
                    }
                }
                Ok(v)
            },
            Err(n) => {
                let w = vec![n];
                Err(w)
            },
        }
    }

    /// The strongly connected components of more than one requirement: each
    /// is a set of requirements that all reach one another. Empty on a healthy
    /// tree.
    pub fn cycles(&self) -> (r: Vec<Vec<u128>>)
        requires
            self.wf(),
        ensures
            forall|i: int| 0 <= i < r@.len() ==> (#[trigger] r@[i])@.len() > 1,
            forall|i: int, x: u128, y: u128|
                0 <= i < r@.len() && #[trigger] r@[i]@.contains(x) && #[trigger] r@[i]@.contains(y)
                    ==> reaches(self@.edges, Direction::Outgoing, x, y),
            forall|x: u128, y: u128|
                x != y && self@.contains(x) && self@.contains(y) && #[trigger] reaches(
                    self@.edges,
                    Direction::Outgoing,
                    x,
                    y,
                ) && #[trigger] reaches(self@.edges, Direction::Outgoing, y, x) ==> exists|i: int|
                    0 <= i < r@.len() && r@[i]@.contains(x) && r@[i]@.contains(y),
    {
        let all = graph_sccs(&self.graph);
        let r = components_with_several(&all);
        proof {
            let allv = all@.map_values(|c: Vec<u128>| c@);
            lemma_several(allv, allv.len() as int);
            let sv = several(allv, allv.len() as int);
            assert(forall|k: int| 0 <= k < r@.len() ==> #[trigger] r@[k]@ == sv[k]);
            assert forall|k: int| 0 <= k < r@.len() implies (#[trigger] r@[k])@.len() > 1 && exists|j: int|
                0 <= j < all@.len() && r@[k]@ == all@[j]@ by {
                assert(r@[k]@ == sv[k]);
                let j = choose|j: int| 0 <= j < allv.len() && sv[k] == allv[j];
                assert(allv[j] == all@[j]@);
            }
            assert forall|j: int| 0 <= j < all@.len() && (#[trigger] all@[j])@.len() > 1 implies exists|k: int|
                0 <= k < r@.len() && r@[k]@ == all@[j]@ by {
                assert(allv[j] == all@[j]@);
                let k = choose|k: int| 0 <= k < sv.len() && sv[k] == allv[j];
                assert(r@[k]@ == sv[k]);
            }
            assert forall|k: int, x: u128, y: u128|
                0 <= k < r@.len() && #[trigger] r@[k]@.contains(x) && #[trigger] r@[k]@.contains(y) implies reaches(
                    self@.edges,
                    Direction::Outgoing,
                    x,
                    y,
                ) by {
                let j = choose|j: int| 0 <= j < all@.len() && r@[k]@ == all@[j]@;
                assert(all@[j]@.contains(x));
            }
            assert forall|x: u128, y: u128|
                x != y && self@.contains(x) && self@.contains(y) && #[trigger] reaches(
                    self@.edges,
                    Direction::Outgoing,
                    x,
                    y,
                ) && #[trigger] reaches(self@.edges, Direction::Outgoing, y, x) implies exists|k: int|
                    0 <= k < r@.len() && r@[k]@.contains(x) && r@[k]@.contains(y) by {
                assert(graph_nodes(self.graph).contains(x));
                assert(graph_nodes(self.graph).contains(y));
                let j = choose|j: int| 0 <= j < all@.len() && (#[trigger] all@[j])@.contains(x) && all@[j]@.contains(y);
                let c = all@[j]@;
                assert(c.len() > 1) by {
                    let a = choose|a: int| 0 <= a < c.len() && c[a] == x;
                    let b = choose|b: int| 0 <= b < c.len() && c[b] == y;
                    assert(a != b);
                }
                let k = choose|k: int| 0 <= k < r@.len() && r@[k]@ == all@[j]@;
            }
        }
        r
    }
}

/// The links with each recorded HRID replaced by the parent's current one;
/// fingerprints are kept.
pub open spec fn refreshed_links(m: TreeModel, links: Seq<(u128, ParentModel)>) -> Seq<(u128, ParentModel)> {
    links.map_values(
        |e: (u128, ParentModel)|
            (e.0, ParentModel { hrid: m.node(e.0).hrid, fingerprint: e.1.fingerprint }),
    )
}

/// Some link of `n` records an HRID that is not its parent's current one.
pub open spec fn is_stale(m: TreeModel, n: RequirementModel) -> bool {
    exists|k: int|
        0 <= k < n.parents.len() && (#[trigger] n.parents[k]).1.hrid != m.node(n.parents[k].0).hrid
}

/// `n` with every recorded parent HRID made current.
pub open spec fn refreshed(m: TreeModel, n: RequirementModel) -> RequirementModel {
    RequirementModel { parents: refreshed_links(m, n.parents), ..n }
}

/// The UUIDs of the stale requirements among the first `upto`, in order.
pub open spec fn stale_uuids(m: TreeModel, upto: int) -> Seq<u128>
    decreases upto,
{
    if upto <= 0 {
        Seq::<u128>::empty()
    } else if is_stale(m, m.nodes[upto - 1]) {
        stale_uuids(m, upto - 1).push(m.nodes[upto - 1].uuid)
    } else {
        stale_uuids(m, upto - 1)
    }
}

/// What repairing a tree's recorded HRIDs gives.
pub open spec fn reconciled(m: TreeModel) -> TreeModel {
    TreeModel { nodes: m.nodes.map_values(|n: RequirementModel| refreshed(m, n)), ..m }
}

/// Two requirements differ at most in the HRIDs recorded on their links.
pub open spec fn same_but_link_hrids(a: RequirementModel, b: RequirementModel) -> bool {
    &&& a.uuid == b.uuid
    &&& a.hrid == b.hrid
    &&& a.content == b.content
    &&& a.tags == b.tags
    &&& a.created == b.created
    &&& a.parents.len() == b.parents.len()
    &&& forall|k: int|
        0 <= k < a.parents.len() ==> (#[trigger] a.parents[k]).0 == b.parents[k].0
            && a.parents[k].1.fingerprint == b.parents[k].1.fingerprint
}

pub proof fn lemma_node_at(m: TreeModel, i: int)
    requires
        m.wf(),
        0 <= i < m.nodes.len(),
    ensures
        m.node(m.nodes[i].uuid) == m.nodes[i],
        has_node(m.nodes, m.nodes[i].uuid),
{
    let u = m.nodes[i].uuid;
    let j = choose|j: int| 0 <= j < m.nodes.len() && (#[trigger] m.nodes[j]).uuid == u;
    if j < i {
        assert(m.nodes[j].uuid != m.nodes[i].uuid);
    } else if i < j {
        assert(m.nodes[i].uuid != m.nodes[j].uuid);
    }
}

/// Changing only recorded link HRIDs keeps a tree well formed, with the same
/// requirements under each UUID as far as their own HRIDs go.
proof fn lemma_relabel_wf(before: TreeModel, after: TreeModel)
    requires
        before.wf(),
        after.edges == before.edges,
        after.counters == before.counters,
        after.nodes.len() == before.nodes.len(),
        forall|j: int| 0 <= j < before.nodes.len() ==> same_but_link_hrids(#[trigger] before.nodes[j], after.nodes[j]),
    ensures
        after.wf(),
        forall|x: u128| #[trigger] has_node(after.nodes, x) <==> has_node(before.nodes, x),
        forall|x: u128| has_node(before.nodes, x) ==> (#[trigger] after.node(x)).hrid == before.node(x).hrid
            && after.node(x).uuid == x,
{
    assert forall|x: u128| #[trigger] has_node(after.nodes, x) <==> has_node(before.nodes, x) by {
        if has_node(before.nodes, x) {
            let j = choose|j: int| 0 <= j < before.nodes.len() && (#[trigger] before.nodes[j]).uuid == x;
            assert(same_but_link_hrids(before.nodes[j], after.nodes[j]));
            assert(after.nodes[j].uuid == x);
        }
        if has_node(after.nodes, x) {
            let j = choose|j: int| 0 <= j < after.nodes.len() && (#[trigger] after.nodes[j]).uuid == x;
            assert(same_but_link_hrids(before.nodes[j], after.nodes[j]));
            assert(before.nodes[j].uuid == x);
        }
    }
    assert forall|i: int, j: int|
        0 <= i < j < after.nodes.len() implies (#[trigger] after.nodes[i]).uuid != (#[trigger] after.nodes[j]).uuid by {
        assert(same_but_link_hrids(before.nodes[i], after.nodes[i]));
        assert(same_but_link_hrids(before.nodes[j], after.nodes[j]));
        assert(before.nodes[i].uuid != before.nodes[j].uuid);
    }
    assert forall|i: int| 0 <= i < after.nodes.len() implies (#[trigger] after.nodes[i]).wf() && valid_model(
        after.nodes[i].hrid,
    ) by {
        let a = before.nodes[i];
        let b = after.nodes[i];
        assert(same_but_link_hrids(a, b));
        assert(a.wf());
        assert forall|k: int| 0 <= k < b.parents.len() implies (#[trigger] b.parents[k]).0 != b.uuid by {
            assert(a.parents[k].0 == b.parents[k].0);
        }
        assert forall|k: int, l: int| 0 <= k < l < b.parents.len() implies (#[trigger] b.parents[k]).0
            != (#[trigger] b.parents[l]).0 by {
            assert(a.parents[k].0 == b.parents[k].0);
            assert(a.parents[l].0 == b.parents[l].0);
        }
    }
    assert forall|i: int, k: int|
        0 <= i < after.nodes.len() && 0 <= k < after.nodes[i].parents.len() implies has_node(
            after.nodes,
            (#[trigger] after.nodes[i].parents[k]).0,
        ) && after.edges.contains_key((after.nodes[i].uuid, after.nodes[i].parents[k].0))
            && after.edges[(after.nodes[i].uuid, after.nodes[i].parents[k].0)]
            == after.nodes[i].parents[k].1.fingerprint by {
        assert(same_but_link_hrids(before.nodes[i], after.nodes[i]));
        assert(before.nodes[i].parents[k].0 == after.nodes[i].parents[k].0);
        assert(has_node(before.nodes, before.nodes[i].parents[k].0));
    }
    assert forall|c: u128, p: u128| #[trigger] after.edges.contains_key((c, p)) implies exists|i: int|
        0 <= i < after.nodes.len() && (#[trigger] after.nodes[i]).uuid == c && links_to(
            after.nodes,
            i,
            p,
            after.edges[(c, p)],
        ) by {
        let i = choose|i: int|
            0 <= i < before.nodes.len() && (#[trigger] before.nodes[i]).uuid == c && links_to(
                before.nodes,
                i,
                p,
                before.edges[(c, p)],
            );
        assert(same_but_link_hrids(before.nodes[i], after.nodes[i]));
        let k = choose|k: int|
            0 <= k < before.nodes[i].parents.len() && (#[trigger] before.nodes[i].parents[k]).0 == p
                && before.nodes[i].parents[k].1.fingerprint == before.edges[(c, p)];
        assert(after.nodes[i].parents[k].0 == p);
    }
    assert forall|x: u128| has_node(before.nodes, x) implies (#[trigger] after.node(x)).hrid == before.node(x).hrid
        && after.node(x).uuid == x by {
        let j = choose|j: int| 0 <= j < after.nodes.len() && (#[trigger] after.nodes[j]).uuid == x;
        assert(same_but_link_hrids(before.nodes[j], after.nodes[j]));
        lemma_node_at(before, j);
        lemma_node_at(after, j);
    }
}

/// Repairing twice changes nothing the second time: after a repair no
/// requirement is stale, and repairing a tree with no stale requirement
/// touches none.
pub proof fn lemma_reconcile_idempotent(m: TreeModel)
    requires
        m.wf(),
    ensures
        reconciled(m).wf(),
        stale_uuids(reconciled(m), reconciled(m).nodes.len() as int) == Seq::<u128>::empty(),
        reconciled(reconciled(m)) == reconciled(m),
{
    let m2 = reconciled(m);
    assert forall|j: int| 0 <= j < m.nodes.len() implies same_but_link_hrids(#[trigger] m.nodes[j], m2.nodes[j]) by {
        assert(m2.nodes[j] == refreshed(m, m.nodes[j]));
    }
    lemma_relabel_wf(m, m2);
    assert forall|j: int| 0 <= j < m2.nodes.len() implies !is_stale(m2, #[trigger] m2.nodes[j]) by {
        let n = m2.nodes[j];
        assert(n == refreshed(m, m.nodes[j]));
        assert forall|k: int| 0 <= k < n.parents.len() implies (#[trigger] n.parents[k]).1.hrid == m2.node(
            n.parents[k].0,
        ).hrid by {
            let p = m.nodes[j].parents[k].0;
            assert(n.parents[k].0 == p);
            assert(has_node(m.nodes, p));
        }
    }
    lemma_no_stale(m2, m2.nodes.len() as int);
    assert forall|j: int| 0 <= j < m2.nodes.len() implies #[trigger] refreshed(m2, m2.nodes[j]) == m2.nodes[j] by {
        let n = m2.nodes[j];
        assert(n == refreshed(m, m.nodes[j]));
        assert(refreshed_links(m2, n.parents) =~= n.parents) by {
            assert forall|k: int| 0 <= k < n.parents.len() implies #[trigger] refreshed_links(m2, n.parents)[k]
                == n.parents[k] by {
                let p = m.nodes[j].parents[k].0;
                assert(has_node(m.nodes, p));
            }
        }
    }
    assert(reconciled(m2).nodes =~= m2.nodes);
}

proof fn lemma_no_stale(m: TreeModel, upto: int)
    requires
        upto <= m.nodes.len(),
        forall|j: int| 0 <= j < m.nodes.len() ==> !is_stale(m, #[trigger] m.nodes[j]),
    ensures
        stale_uuids(m, upto) == Seq::<u128>::empty(),
    decreases upto,
{
    if upto > 0 {
        lemma_no_stale(m, upto - 1);
        assert(!is_stale(m, m.nodes[upto - 1]));
    }
}

impl Tree {
    /// The links of node `i` with current parent HRIDs, and whether any
    /// recorded HRID was stale.
    fn current_links(&self, i: usize) -> (r: (Vec<(u128, Parent)>, bool))
        requires
            self.wf(),
            i < self@.nodes.len(),
        ensures
            crate::requirement::parents_view(r.0@) == refreshed_links(self@, self@.nodes[i as int].parents),
            r.1 == is_stale(self@, self@.nodes[i as int]),
    {
        let ghost m = self@;
        let ghost n = self@.nodes[i as int];
        let node = &self.nodes[i];
        let ps = node.parents();
        let mut out: Vec<(u128, Parent)> = Vec::new();
        let mut stale = false;
        let mut k: usize = 0;
        while k < ps.len()
            invariant
                self.wf(),
                m == self@,
                i < m.nodes.len(),
                n == m.nodes[i as int],
                crate::requirement::parents_view(ps@) == n.parents,
                k <= ps@.len(),
                crate::requirement::parents_view(out@) == refreshed_links(m, n.parents).take(k as int),
                stale == exists|k2: int|
                    0 <= k2 < k && (#[trigger] n.parents[k2]).1.hrid != m.node(n.parents[k2].0).hrid,
            decreases ps@.len() - k,
        {
            let p = ps[k].0;
            assert(n.parents[k as int].0 == p);
            assert(has_node(m.nodes, p));
            let pi = match self.find(p) {
                Some(x) => x,
                None => {
                    return (out, stale);
                },
            };
            proof {
                lemma_node_at(m, pi as int);
            }
            let cur = self.nodes[pi].hrid();
            if !cur.same_as(&ps[k].1.hrid) {
                stale = true;
            }
            let entry = (p, Parent { hrid: cur.copied(), fingerprint: ps[k].1.fingerprint.clone() });
            proof {
                assert(m.nodes[pi as int].uuid == p);
                assert(cur@ == m.node(p).hrid);
                assert(ps@[k as int].1@ == n.parents[k as int].1);
                assert(entry.1@ == ParentModel { hrid: m.node(p).hrid, fingerprint: n.parents[k as int].1.fingerprint });
                assert(refreshed_links(m, n.parents)[k as int] == (entry.0, entry.1@));
            }
            let ghost old_out = out@;
            let ghost ev = (entry.0, entry.1@);
            out.push(entry);
            k = k + 1;
            proof {
                assert(crate::requirement::parents_view(out@) =~= crate::requirement::parents_view(
                    old_out,
                ).push(ev));
                assert(refreshed_links(m, n.parents).take(k as int) =~= refreshed_links(
                    m,
                    n.parents,
                ).take(k - 1).push(ev));
                assert(crate::requirement::parents_view(out@) =~= refreshed_links(m, n.parents).take(
                    k as int,
                ));
                if stale {
                    if exists|k2: int|
                        0 <= k2 < k - 1 && (#[trigger] n.parents[k2]).1.hrid != m.node(
                            n.parents[k2].0,
                        ).hrid {
                    } else {
                        assert(n.parents[k - 1].1.hrid != m.node(n.parents[k - 1].0).hrid);
                    }
                }
            }
        }
        proof {
            assert(refreshed_links(m, n.parents).take(ps@.len() as int) =~= refreshed_links(m, n.parents));
        }
        (out, stale)
    }

    /// Repairs the recorded parent HRIDs: every link gets its parent's
    /// current HRID, fingerprints untouched. Returns, in order, the UUIDs of
    /// the requirements that had a stale link, each once.
    pub fn update_hrids(&mut self) -> (r: Vec<u128>)
        requires
            old(self).wf(),
        ensures
            final(self).wf(),
            final(self)@ == reconciled(old(self)@),
            r@ == stale_uuids(old(self)@, old(self)@.nodes.len() as int),
    {
        let ghost m = self@;
        let mut touched: Vec<u128> = Vec::new();
        let mut i: usize = 0;
        while i < self.nodes.len()
            invariant
                m.wf(),
                self.wf(),
                m == old(self)@,
                self@.edges == m.edges,
                self@.counters == m.counters,
                self@.nodes.len() == m.nodes.len(),
                i <= m.nodes.len(),
                forall|j: int| 0 <= j < i ==> #[trigger] self@.nodes[j] == refreshed(m, m.nodes[j]),
                forall|j: int| i <= j < m.nodes.len() ==> #[trigger] self@.nodes[j] == m.nodes[j],
                forall|j: int| 0 <= j < m.nodes.len() ==> same_but_link_hrids(#[trigger] m.nodes[j], self@.nodes[j]),
                touched@ == stale_uuids(m, i as int),
            decreases m.nodes.len() - i,
        {
            let ghost cur = self@;
            proof {
                lemma_relabel_wf(m, cur);
                assert(cur.nodes[i as int] == m.nodes[i as int]);
            }
            let (links, stale) = self.current_links(i);
            proof {
                let n = m.nodes[i as int];
                assert(refreshed_links(cur, n.parents) =~= refreshed_links(m, n.parents)) by {
                    assert forall|k: int| 0 <= k < n.parents.len() implies #[trigger] refreshed_links(
                        cur,
                        n.parents,
                    )[k] == refreshed_links(m, n.parents)[k] by {
                        assert(has_node(m.nodes, n.parents[k].0));
                    }
                }
                assert(is_stale(cur, n) == is_stale(m, n)) by {
                    if is_stale(cur, n) {
                        let k = choose|k: int|
                            0 <= k < n.parents.len() && (#[trigger] n.parents[k]).1.hrid != cur.node(
                                n.parents[k].0,
                            ).hrid;
                        assert(has_node(m.nodes, n.parents[k].0));
                    }
                    if is_stale(m, n) {
                        let k = choose|k: int|
                            0 <= k < n.parents.len() && (#[trigger] n.parents[k]).1.hrid != m.node(
                                n.parents[k].0,
                            ).hrid;
                        assert(has_node(m.nodes, n.parents[k].0));
                    }
                }
            }
            let uuid = self.nodes[i].uuid();
            if stale {
                touched.push(uuid);
            }
            let mut node = self.nodes.remove(i);
            proof {
                let n = m.nodes[i as int];
                assert(n.wf());
                let np = crate::requirement::parents_view(links@);
                assert forall|k: int| 0 <= k < np.len() implies (#[trigger] np[k]).0 != n.uuid by {
                    assert(np[k].0 == n.parents[k].0);
                }
                assert forall|k: int, l: int| 0 <= k < l < np.len() implies (#[trigger] np[k]).0
                    != (#[trigger] np[l]).0 by {
                    assert(np[k].0 == n.parents[k].0);
                    assert(np[l].0 == n.parents[l].0);
                }
            }
            node.set_parents(links);
            self.nodes.insert(i, node);
            proof {
                let newm = self@;
                assert(newm.nodes =~= cur.nodes.update(i as int, refreshed(m, m.nodes[i as int])));
                assert forall|j: int| 0 <= j < m.nodes.len() implies same_but_link_hrids(
                    #[trigger] m.nodes[j],
                    newm.nodes[j],
                ) by {
                    if j == i {
                        let n = m.nodes[i as int];
                        assert forall|k: int| 0 <= k < n.parents.len() implies (#[trigger] n.parents[k]).0
                            == newm.nodes[j].parents[k].0 && n.parents[k].1.fingerprint
                            == newm.nodes[j].parents[k].1.fingerprint by {
                            assert(newm.nodes[j].parents == refreshed_links(m, n.parents));
                        }
                    } else {
                        assert(newm.nodes[j] == cur.nodes[j]);
                    }
                }
                lemma_relabel_wf(m, newm);
                assert forall|x: u128| #[trigger] graph_nodes(self.graph).contains(x) <==> self@.contains(x) by {
                    assert(has_node(newm.nodes, x) <==> has_node(m.nodes, x));
                    assert(has_node(cur.nodes, x) <==> has_node(m.nodes, x));
                }
                assert(stale_uuids(m, i + 1) == if is_stale(m, m.nodes[i as int]) {
                    stale_uuids(m, i as int).push(m.nodes[i as int].uuid)
                } else {
                    stale_uuids(m, i as int)
                });
            }
            i = i + 1;
        }
        proof {
            assert(self@.nodes =~= reconciled(m).nodes);
        }
        touched
    }
}

proof fn lemma_walk_extend(e: Map<(u128, u128), Seq<char>>, dir: Direction, w: Seq<u128>, y: u128)
    requires
        is_walk(e, dir, w),
        step(e, dir, w.last(), y),
    ensures
        is_walk(e, dir, w.push(y)),
        w.push(y)[0] == w[0],
        w.push(y).last() == y,
{
    let w2 = w.push(y);
    assert forall|i: int| 0 <= i < w2.len() - 1 implies step(e, dir, #[trigger] w2[i], w2[i + 1]) by {
        if i < w.len() - 1 {
            assert(w2[i] == w[i] && w2[i + 1] == w[i + 1]);
        } else {
            assert(w2[i] == w.last());
        }
    }
}

/// A set that holds the start of a walk and is closed under steps holds its end.
proof fn lemma_walk_closed(e: Map<(u128, u128), Seq<char>>, dir: Direction, s: Set<u128>, w: Seq<u128>)
    requires
        is_walk(e, dir, w),
        s.contains(w[0]),
        forall|x: u128, y: u128| s.contains(x) && #[trigger] step(e, dir, x, y) ==> s.contains(y),
    ensures
        s.contains(w.last()),
    decreases w.len(),
{
    if w.len() > 1 {
        let w0 = w.drop_last();
        assert forall|i: int| 0 <= i < w0.len() - 1 implies step(e, dir, #[trigger] w0[i], w0[i + 1]) by {
            assert(w0[i] == w[i] && w0[i + 1] == w[i + 1]);
        }
        lemma_walk_closed(e, dir, s, w0);
        assert(step(e, dir, w[w.len() - 2], w[w.len() - 1]));
    }
}

proof fn lemma_push_contains(s: Seq<u128>, v: u128)
    ensures
        forall|a: u128| #[trigger] s.push(v).contains(a) <==> s.contains(a) || a == v,
{
    assert forall|a: u128| #[trigger] s.push(v).contains(a) <==> s.contains(a) || a == v by {
        if s.contains(a) {
            let i = choose|i: int| 0 <= i < s.len() && s[i] == a;
            assert(s.push(v)[i] == a);
        }
        if a == v {
            assert(s.push(v)[s.len() as int] == a);
        }
        if s.push(v).contains(a) {
            let i = choose|i: int| 0 <= i < s.push(v).len() && s.push(v)[i] == a;
            if i < s.len() {
                assert(s[i] == a);
            }
        }
    }
}

fn vec_contains(v: &Vec<u128>, x: u128) -> (r: bool)
    ensures
        r == v@.contains(x),
{
    let mut i: usize = 0;
    while i < v.len()
        invariant
            i <= v@.len(),
            forall|k: int| 0 <= k < i ==> v@[k] != x,
        decreases v@.len() - i,
    {
        if v[i] == x {
            return true;
        }
        i = i + 1;
    }
    false
}

impl Tree {
    /// The UUIDs reachable from `start` in one or more steps in direction
    /// `dir`, found depth first with a stack and a visited list, so each is
    /// reported once even where paths meet again; `start` is not reported.
    fn walk(&self, start: u128, dir: Direction) -> (r: Vec<u128>)
        requires
            self.wf(),
        ensures
            r@.no_duplicates(),
            forall|x: u128| #[trigger] r@.contains(x) <==> x != start && reaches(self@.edges, dir, start, x),
    {
        let ghost e = self@.edges;
        let ghost universe = self@.uuids().to_set().insert(start);
        let ghost bound = self@.nodes.len() + 1;
        proof {
            self@.uuids().lemma_cardinality_of_set();
            vstd::seq_lib::seq_to_set_is_finite(self@.uuids());
            assert(universe.len() <= bound);
            let w = seq![start];
            assert(is_walk(e, dir, w));
        }
        let mut out: Vec<u128> = Vec::new();
        let mut stack: Vec<u128> = vec![start];
        let mut visited: Vec<u128> = vec![start];
        while stack.len() > 0
            invariant
                self.wf(),
                e == self@.edges,
                universe == self@.uuids().to_set().insert(start),
                universe.finite(),
                universe.len() <= bound,
                visited@.no_duplicates(),
                visited@.len() <= bound,
                out@.no_duplicates(),
                stack@.no_duplicates(),
                forall|x: u128| #[trigger] visited@.contains(x) <==> out@.contains(x) || stack@.contains(x),
                forall|x: u128| out@.contains(x) ==> !stack@.contains(x),
                visited@.contains(start),
                forall|x: u128| #[trigger] visited@.contains(x) ==> universe.contains(x),
                forall|x: u128| #[trigger] visited@.contains(x) ==> reaches(e, dir, start, x),
                forall|x: u128, y: u128| out@.contains(x) && #[trigger] step(e, dir, x, y) ==> visited@.contains(y),
                out@.len() == 0 ==> stack@ == seq![start],
                out@.len() > 0 ==> out@[0] == start,
            decreases 2 * (bound - visited@.len()) + stack@.len(),
        {
            proof {
                visited@.unique_seq_to_set();
                assert(visited@.to_set().subset_of(universe));
                vstd::set_lib::lemma_len_subset(visited@.to_set(), universe);
            }
            let ghost stack_before = stack@;
            let ghost m0 = 2 * (bound - visited@.len()) + stack@.len();
            let x = stack.pop().unwrap();
            let ghost stack_after_pop = stack@;
            let ghost out_before = out@;
            assert(!out@.contains(x));
            out.push(x);
            proof {
                assert(stack_before =~= stack@.push(x));
                lemma_push_contains(stack@, x);
                lemma_push_contains(out_before, x);
                assert(out@ =~= out_before.push(x));
                if out_before.len() == 0 {
                    assert(x == start);
                }
                assert forall|a: u128| #[trigger] stack@.contains(a) implies !out@.contains(a) by {
                    if out@.contains(a) {
                        if a != x {
                            assert(out_before.contains(a));
                        }
                        let k = choose|k: int| 0 <= k < stack@.len() && stack@[k] == a;
                        assert(stack_before[k] == a);
                    }
                }
            }
            let next = graph_edges_directed(&self.graph, x, dir);
            let mut k: usize = 0;
            while k < next.len()
                invariant
                    self.wf(),
                    e == self@.edges,
                    universe == self@.uuids().to_set().insert(start),
                    universe.finite(),
                    universe.len() <= bound,
                    visited@.no_duplicates(),
                    out@.no_duplicates(),
                    stack@.no_duplicates(),
                    forall|a: u128| #[trigger] visited@.contains(a) <==> out@.contains(a) || stack@.contains(a),
                    forall|a: u128| out@.contains(a) ==> !stack@.contains(a),
                    visited@.contains(start),
                    visited@.contains(x),
                    out@.contains(x),
                    forall|a: u128| #[trigger] visited@.contains(a) ==> universe.contains(a),
                    forall|a: u128| #[trigger] visited@.contains(a) ==> reaches(e, dir, start, a),
                    forall|a: u128, b: u128|
                        out@.contains(a) && a != x && #[trigger] step(e, dir, a, b) ==> visited@.contains(b),
                    forall|i: int| 0 <= i < k ==> visited@.contains((#[trigger] next@[i]).0),
                    forall|i: int| 0 <= i < next@.len() ==> step(e, dir, x, (#[trigger] next@[i]).0),
                    forall|b: u128| step(e, dir, x, b) ==> exists|i: int| 0 <= i < next@.len() && (#[trigger] next@[i]).0 == b,
                    out@.len() > 0 && out@[0] == start,
                    k <= next@.len(),
                    visited@.len() <= bound,
                    2 * (bound - visited@.len()) + stack@.len() < m0,
                decreases next@.len() - k,
            {
                let y = next[k].0;
                let ghost old_visited = visited@;
                if !vec_contains(&visited, y) {
                    proof {
                        let w = choose|w: Seq<u128>| #[trigger] is_walk(e, dir, w) && w[0] == start && w.last() == x;
                        lemma_walk_extend(e, dir, w, y);
                        assert(is_walk(e, dir, w.push(y)));
                        assert(universe.contains(y)) by {
                            assert(step(e, dir, x, y));
                            match dir {
                                Direction::Outgoing => {
                                    assert(e.contains_key((x, y)));
                                    let i = choose|i: int| 0 <= i < self@.nodes.len() && (#[trigger] self@.nodes[i]).uuid == x && links_to(self@.nodes, i, y, e[(x, y)]);
                                    let kk = choose|kk: int| 0 <= kk < self@.nodes[i].parents.len() && (#[trigger] self@.nodes[i].parents[kk]).0 == y && self@.nodes[i].parents[kk].1.fingerprint == e[(x, y)];
                                    assert(has_node(self@.nodes, y));
                                    let j = choose|j: int| 0 <= j < self@.nodes.len() && (#[trigger] self@.nodes[j]).uuid == y;
                                    assert(self@.uuids()[j] == y);
                                },
                                Direction::Incoming => {
                                    assert(e.contains_key((y, x)));
                                    let i = choose|i: int| 0 <= i < self@.nodes.len() && (#[trigger] self@.nodes[i]).uuid == y && links_to(self@.nodes, i, x, e[(y, x)]);
                                    assert(self@.uuids()[i] == y);
                                },
                            }
                        }
                    }
                    let ghost old_stack = stack@;
                    visited.push(y);
                    stack.push(y);
                    proof {
                        lemma_push_contains(old_visited, y);
                        lemma_push_contains(old_stack, y);
                        assert forall|a: u128| #[trigger] visited@.contains(a) implies universe.contains(a) by {
                            if a != y {
                                assert(old_visited.contains(a));
                            }
                        }
                        visited@.unique_seq_to_set();
                        assert(visited@.to_set().subset_of(universe));
                        vstd::set_lib::lemma_len_subset(visited@.to_set(), universe);
                        assert forall|a: u128| #[trigger] visited@.contains(a) <==> out@.contains(a) || stack@.contains(a) by {
                            if a == y {
                                assert(visited@[visited@.len() - 1] == y);
                                assert(stack@[stack@.len() - 1] == y);
                            }
                        }
                        assert forall|a: u128| out@.contains(a) implies !stack@.contains(a) by {
                            if a == y {
                            }
                        }
                    }
                }
                k = k + 1;
            }
            proof {
                assert forall|a: u128, b: u128| out@.contains(a) && #[trigger] step(e, dir, a, b) implies visited@.contains(b) by {
                    if a == x {
                        let i = choose|i: int| 0 <= i < next@.len() && (#[trigger] next@[i]).0 == b;
                    }
                }
            }
        }
        proof {
            assert forall|x: u128| #[trigger] reaches(e, dir, start, x) implies out@.contains(x) by {
                let w = choose|w: Seq<u128>| #[trigger] is_walk(e, dir, w) && w[0] == start && w.last() == x;
                assert forall|a: u128, b: u128| out@.to_set().contains(a) && #[trigger] step(e, dir, a, b) implies out@.to_set().contains(b) by {
                    assert(visited@.contains(b));
                }
                lemma_walk_closed(e, dir, out@.to_set(), w);
            }
        }
        let mut r: Vec<u128> = Vec::new();
        let mut i: usize = 1;
        while i < out.len()
            invariant
                1 <= i <= out@.len(),
                out@.len() > 0 && out@[0] == start,
                out@.no_duplicates(),
                r@ == out@.subrange(1, i as int),
            decreases out@.len() - i,
        {
            r.push(out[i]);
            i = i + 1;
            assert(r@ =~= out@.subrange(1, i as int));
        }
        proof {
            assert forall|x: u128| #[trigger] r@.contains(x) <==> x != start && reaches(e, dir, start, x) by {
                if r@.contains(x) {
                    let k = choose|k: int| 0 <= k < r@.len() && r@[k] == x;
                    assert(out@[k + 1] == x);
                    assert(out@[0] != out@[k + 1]);
                    assert(visited@.contains(x));
                }
                if x != start && reaches(e, dir, start, x) {
                    let k = choose|k: int| 0 <= k < out@.len() && out@[k] == x;
                    assert(k != 0);
                    assert(r@[k - 1] == x);
                }
            }
        }
        r
    }

    /// Every requirement `u` descends from, each once; `u` itself excluded.
    pub fn ancestors(&self, u: u128) -> (r: Vec<u128>)
        requires
            self.wf(),
        ensures
            r@.no_duplicates(),
            forall|x: u128| #[trigger] r@.contains(x) <==> x != u && reaches(self@.edges, Direction::Outgoing, u, x),
    {
        self.walk(u, Direction::Outgoing)
    }

    /// Every requirement that descends from `u`, each once; `u` itself excluded.
    pub fn descendants(&self, u: u128) -> (r: Vec<u128>)
        requires
            self.wf(),
        ensures
            r@.no_duplicates(),
            forall|x: u128| #[trigger] r@.contains(x) <==> x != u && reaches(self@.edges, Direction::Incoming, u, x),
    {
        self.walk(u, Direction::Incoming)
    }
}

/// `after` is `before` without node `ci`'s link at position `k` and without
/// the matching edge.
pub open spec fn unlinked(before: TreeModel, after: TreeModel, ci: int, k: int) -> bool {
    &&& after.counters == before.counters
    &&& after.edges == before.edges.remove((before.nodes[ci].uuid, before.nodes[ci].parents[k].0))
    &&& after.nodes == before.nodes.update(
        ci,
        RequirementModel { parents: before.nodes[ci].parents.remove(k), ..before.nodes[ci] },
    )
}

proof fn lemma_unlinked_wf(before: TreeModel, after: TreeModel, ci: int, k: int)
    requires
        before.wf(),
        0 <= ci < before.nodes.len(),
        0 <= k < before.nodes[ci].parents.len(),
        unlinked(before, after, ci, k),
        after.nodes[ci].wf(),
    ensures
        after.wf(),
        forall|x: u128| #[trigger] has_node(after.nodes, x) <==> has_node(before.nodes, x),
{
    lemma_remove_edge_acyclic(before.edges, (before.nodes[ci].uuid, before.nodes[ci].parents[k].0));
    let c = before.nodes[ci].uuid;
    let op = before.nodes[ci].parents;
    let p = op[k].0;
    let np = after.nodes[ci].parents;
    assert forall|x: u128| #[trigger] has_node(after.nodes, x) <==> has_node(before.nodes, x) by {
        if has_node(before.nodes, x) {
            let j = choose|j: int| 0 <= j < before.nodes.len() && (#[trigger] before.nodes[j]).uuid == x;
            assert(after.nodes[j].uuid == x);
        }
        if has_node(after.nodes, x) {
            let j = choose|j: int| 0 <= j < after.nodes.len() && (#[trigger] after.nodes[j]).uuid == x;
            assert(before.nodes[j].uuid == x);
        }
    }
    assert forall|i: int, j: int|
        0 <= i < j < after.nodes.len() implies (#[trigger] after.nodes[i]).uuid != (#[trigger] after.nodes[j]).uuid by {
        assert(before.nodes[i].uuid != before.nodes[j].uuid);
    }
    assert forall|i: int| 0 <= i < after.nodes.len() implies (#[trigger] after.nodes[i]).wf() && valid_model(
        after.nodes[i].hrid,
    ) by {
        assert(before.nodes[i].wf() && valid_model(before.nodes[i].hrid));
    }
    assert forall|i: int, k2: int|
        0 <= i < after.nodes.len() && 0 <= k2 < after.nodes[i].parents.len() implies has_node(
            after.nodes,
            (#[trigger] after.nodes[i].parents[k2]).0,
        ) && after.edges.contains_key((after.nodes[i].uuid, after.nodes[i].parents[k2].0))
            && after.edges[(after.nodes[i].uuid, after.nodes[i].parents[k2].0)]
            == after.nodes[i].parents[k2].1.fingerprint by {
        if i == ci {
            let k3 = if k2 < k { k2 } else { k2 + 1 };
            assert(np[k2] == op[k3]);
            assert(op[k3].0 != op[k].0) by {
                if k3 < k {
                    assert(op[k3].0 != op[k].0);
                } else {
                    assert(op[k].0 != op[k3].0);
                }
            }
            assert(before.nodes[ci].parents[k3] == np[k2]);
        } else {
            assert(after.nodes[i] == before.nodes[i]);
            assert(before.nodes[i].parents[k2] == after.nodes[i].parents[k2]);
            assert(before.nodes[i].uuid != c) by {
                if i < ci {
                    assert(before.nodes[i].uuid != before.nodes[ci].uuid);
                } else {
                    assert(before.nodes[ci].uuid != before.nodes[i].uuid);
                }
            }
        }
    }
    assert forall|x: u128, y: u128| #[trigger] after.edges.contains_key((x, y)) implies exists|i: int|
        0 <= i < after.nodes.len() && (#[trigger] after.nodes[i]).uuid == x && links_to(
            after.nodes,
            i,
            y,
            after.edges[(x, y)],
        ) by {
        assert(before.edges.contains_key((x, y)));
        assert((x, y) != (c, p));
        let i = choose|i: int|
            0 <= i < before.nodes.len() && (#[trigger] before.nodes[i]).uuid == x && links_to(
                before.nodes,
                i,
                y,
                before.edges[(x, y)],
            );
        let k2 = choose|k2: int|
            0 <= k2 < before.nodes[i].parents.len() && (#[trigger] before.nodes[i].parents[k2]).0 == y
                && before.nodes[i].parents[k2].1.fingerprint == before.edges[(x, y)];
        if i == ci {
            assert(y != p);
            assert(k2 != k);
            let k3 = if k2 < k { k2 } else { k2 - 1 };
            assert(np[k3] == op[k2]);
            assert(after.nodes[i].parents[k3].0 == y);
        } else {
            assert(after.nodes[i] == before.nodes[i]);
            assert(after.nodes[i].parents[k2].0 == y);
        }
    }
}

impl Tree {
    /// Removes the edge from `child` to `parent` and the child's link to it,
    /// returning the fingerprint the edge recorded; `None`, changing nothing,
    /// when there is no such edge.
    pub fn unlink(&mut self, child: u128, parent: u128) -> (r: Option<String>)
        requires
            old(self).wf(),
        ensures
            final(self).wf(),
            r is Some <==> old(self)@.edges.contains_key((child, parent)),
            r matches Some(f) ==> f@ == old(self)@.edges[(child, parent)],
            r is None ==> final(self)@ == old(self)@,
            r is Some ==> exists|ci: int, k: int|
                0 <= ci < old(self)@.nodes.len() && 0 <= k < old(self)@.nodes[ci].parents.len()
                    && old(self)@.nodes[ci].uuid == child
                    && old(self)@.nodes[ci].parents[k].0 == parent && #[trigger] unlinked(
                    old(self)@,
                    final(self)@,
                    ci,
                    k,
                ),
    {
        let ghost before = self@;
        let ci = match self.find(child) {
            Some(ci) => ci,
            None => {
                proof {
                    if before.edges.contains_key((child, parent)) {
                        let i = choose|i: int|
                            0 <= i < before.nodes.len() && (#[trigger] before.nodes[i]).uuid == child && links_to(
                                before.nodes,
                                i,
                                parent,
                                before.edges[(child, parent)],
                            );
                    }
                }
                return None;
            },
        };
        if !self.edge_exists(ci, parent) {
            return None;
        }
        let r = graph_remove_edge(&mut self.graph, child, parent);
        let mut node = self.nodes.remove(ci);
        let _ = node.remove_parent(parent);
        self.nodes.insert(ci, node);
        proof {
            let k = choose|k: int|
                0 <= k < before.nodes[ci as int].parents.len() && (#[trigger] before.nodes[ci as int].parents[k]).0 == parent;
            assert(self@.nodes =~= before.nodes.update(ci as int, node@));
            assert(unlinked(before, self@, ci as int, k));
            lemma_unlinked_wf(before, self@, ci as int, k);
            assert forall|x: u128| #[trigger] graph_nodes(self.graph).contains(x) <==> self@.contains(x) by {
                assert(has_node(self@.nodes, x) <==> has_node(before.nodes, x));
            }
        }
        r
    }

    /// Whether node `ci` links to `parent`; by the invariant, exactly when
    /// the edge exists.
    fn edge_exists(&self, ci: usize, parent: u128) -> (r: bool)
        requires
            self.wf(),
            ci < self@.nodes.len(),
        ensures
            r == has_parent(self@.nodes[ci as int].parents, parent),
            r == self@.edges.contains_key((self@.nodes[ci as int].uuid, parent)),
    {
        let ps = self.nodes[ci].parents();
        let mut k: usize = 0;
        while k < ps.len()
            invariant
                self.wf(),
                ci < self@.nodes.len(),
                crate::requirement::parents_view(ps@) == self@.nodes[ci as int].parents,
                k <= ps@.len(),
                forall|k2: int| 0 <= k2 < k ==> (#[trigger] self@.nodes[ci as int].parents[k2]).0 != parent,
            decreases ps@.len() - k,
        {
            if ps[k].0 == parent {
                assert(self@.nodes[ci as int].parents[k as int].0 == parent);
                return true;
            }
            assert(self@.nodes[ci as int].parents[k as int].0 == ps@[k as int].0);
            k = k + 1;
        }
        proof {
            let c = self@.nodes[ci as int].uuid;
            if self@.edges.contains_key((c, parent)) {
                let i = choose|i: int|
                    0 <= i < self@.nodes.len() && (#[trigger] self@.nodes[i]).uuid == c && links_to(
                        self@.nodes,
                        i,
                        parent,
                        self@.edges[(c, parent)],
                    );
                self.lemma_find_unique(i, ci as int);
            }
        }
        false
    }
}

impl Default for Tree {
    fn default() -> (r: Tree)
        ensures
            r.wf(),
            r@.nodes.len() == 0,
            r@.edges.dom().is_empty(),
    {
        Tree::new()
    }
}

impl Tree {
    /// An empty tree with room for `capacity` requirements.
    pub fn with_capacity(capacity: usize) -> (r: Tree)
        ensures
            r.wf(),
            r@.nodes.len() == 0,
            r@.edges.dom().is_empty(),
            r@.counters.len() == 0,
    {
        let r = Tree { graph: graph_new(), nodes: Vec::with_capacity(capacity), index: HashMap::new(), counters: Index::new() };
        assert(r@.nodes =~= Seq::<RequirementModel>::empty());
        r
    }

    /// The requirement with UUID `u`, if any; the same as [`Tree::get`].
    pub fn requirement(&self, u: u128) -> (r: Option<&Requirement>)
        requires
            self.wf(),
        ensures
            r is None <==> !self@.contains(u),
            r matches Some(x) ==> x@ == self@.node(u) && x@.uuid == u,
    {
        self.get(u)
    }
}

} // verus!
