//! The requirements graph indexed both ways, HRID ↔ UUID, with the minting of
//! new HRIDs from per-kind counters.

use crate::hrid::{valid_model, valid_segment, Hrid, HridModel};
use crate::requirement::{Requirement, RequirementModel};
use crate::tree::{link_outcome, LinkError, Tree, TreeModel};
use vstd::prelude::*;

verus! {

/// The HRIDs of the requirements are pairwise distinct, and no requirement's
/// id is above the counter of its kind.
pub open spec fn index_wf(m: TreeModel) -> bool {
    &&& m.wf()
    &&& forall|i: int, j: int|
        0 <= i < j < m.nodes.len() ==> (#[trigger] m.nodes[i]).hrid != (#[trigger] m.nodes[j]).hrid
    &&& forall|i: int| 0 <= i < m.nodes.len() ==> (#[trigger] m.nodes[i]).hrid.id <= m.counter(m.nodes[i].hrid.kind)
}

/// Some requirement has HRID `h`.
pub open spec fn has_hrid(m: TreeModel, h: HridModel) -> bool {
    exists|i: int| 0 <= i < m.nodes.len() && (#[trigger] m.nodes[i]).hrid == h
}

/// Errors of [`HridTree::insert`].
#[derive(Debug, Clone)]
pub enum InsertError {
    /// The HRID already belongs to a requirement with another UUID.
    HridConflict(Hrid),
}

/// Errors of [`HridTree::add`].
#[derive(Debug, Clone, PartialEq, Eq)]
pub enum AddError {
    /// The kind is empty or holds a separator.
    InvalidKind,
    /// The kind's counter is at its maximum.
    KindExhausted,
    /// The new UUID is already in use.
    UuidTaken(u128),
}

/// Errors of [`HridTree::link_by_hrid`].
#[derive(Debug, Clone)]
pub enum HridLinkError {
    /// No requirement has this HRID.
    NotFound(Hrid),
    /// A requirement cannot be its own parent.
    SelfReference(Hrid),
    /// The parent already descends from the child.
    WouldCreateCycle { child: Hrid, parent: Hrid },
}

/// Relies on `uuid::Uuid::new_v4`: a random version-4 UUID, as an integer.
#[verifier::external_body]
pub(crate) fn fresh_uuid() -> u128 {
    uuid::Uuid::new_v4().as_u128()
}

/// The requirements graph with its HRID index.
///
/// Each requirement carries its own HRID, so the UUID → HRID direction is a
/// lookup in the graph; the HRID → UUID direction is kept exact by the
/// invariant that no two requirements share an HRID, which every mutating
/// method preserves.
pub struct HridTree {
    tree: Tree,
}

impl View for HridTree {
    type V = TreeModel;

    closed spec fn view(&self) -> TreeModel {
        self.tree@
    }
}

impl HridTree {
    pub closed spec fn wf(&self) -> bool {
        self.tree.wf() && index_wf(self.tree@)
    }

    /// An empty index.
    pub fn new() -> (r: HridTree)
        ensures
            r.wf(),
            r@.nodes.len() == 0,
            r@.edges.dom().is_empty(),
            forall|k: Seq<char>| #[trigger] r@.counter(k) == 0,
    {
        let r = HridTree { tree: Tree::new() };
        proof {
            assert(r@.counters =~= Seq::<(Seq<char>, usize)>::empty());
            assert forall|k: Seq<char>| #[trigger] r@.counter(k) == 0 by {}
        }
        r
    }

    /// A well-formed index has a well-formed model: no two requirements
    /// share an HRID, and no id is above its kind's counter.
    pub proof fn lemma_index_wf(&self)
        requires
            self.wf(),
        ensures
            index_wf(self@),
    {
    }

    /// The graph, for traversals.
    pub fn tree(&self) -> (r: &Tree)
        requires
            self.wf(),
        ensures
            r@ == self@,
            r.wf(),
    {
        &self.tree
    }

    /// The position of the requirement with HRID `h`.
    fn find_hrid(&self, h: &Hrid) -> (r: Option<usize>)
        requires
            self.wf(),
        ensures
            r is None <==> !has_hrid(self@, h@),
            r matches Some(i) ==> i < self@.nodes.len() && self@.nodes[i as int].hrid == h@,
    {
        let nodes = self.tree.requirements();
        let mut i: usize = 0;
        while i < nodes.len()
            invariant
                nodes@.map_values(|x: Requirement| x@) == self@.nodes,
                i <= nodes@.len(),
                forall|k: int| 0 <= k < i ==> (#[trigger] self@.nodes[k]).hrid != h@,
            decreases nodes@.len() - i,
        {
            if nodes[i].hrid().same_as(h) {
                assert(self@.nodes[i as int] == nodes@[i as int]@);
                return Some(i);
            }
            assert(self@.nodes[i as int] == nodes@[i as int]@);
            i = i + 1;
        }
        None
    }

    /// The UUID and requirement with HRID `h`, if any.
    pub fn get_by_hrid(&self, h: &Hrid) -> (r: Option<(u128, &Requirement)>)
        requires
            self.wf(),
        ensures
            r is None <==> !has_hrid(self@, h@),
            r matches Some((u, x)) ==> x@.hrid == h@ && x@.uuid == u && u == uuid_of(self@, h@)
                && exists|i: int| 0 <= i < self@.nodes.len() && #[trigger] self@.nodes[i] == x@,
    {
        match self.find_hrid(h) {
            Some(i) => {
                proof {
                    self.tree.lemma_model_wf();
                    lemma_uuid_of(self@, i as int);
                }
                let x = &self.tree.requirements()[i];
                Some((x.uuid(), x))
            },
            None => None,
        }
    }

    /// The HRID and requirement with UUID `u`, if any.
    pub fn get(&self, u: u128) -> (r: Option<(&Hrid, &Requirement)>)
        requires
            self.wf(),
        ensures
            r is None <==> !self@.contains(u),
            r matches Some((h, x)) ==> x@ == self@.node(u) && x@.uuid == u && h@ == x@.hrid,
    {
        match self.tree.get(u) {
            Some(x) => Some((x.hrid(), x)),
            None => None,
        }
    }

    /// The HRID of the requirement with UUID `u`, if any.
    pub fn hrid(&self, u: u128) -> (r: Option<&Hrid>)
        requires
            self.wf(),
        ensures
            r is None <==> !self@.contains(u),
            r matches Some(h) ==> h@ == self@.node(u).hrid,
    {
        match self.tree.get(u) {
            Some(x) => Some(x.hrid()),
            None => None,
        }
    }
}

/// The UUID of the requirement with HRID `h`.
pub open spec fn uuid_of(m: TreeModel, h: HridModel) -> u128 {
    m.nodes[choose|i: int| 0 <= i < m.nodes.len() && (#[trigger] m.nodes[i]).hrid == h].uuid
}

/// The requirement minted by an `add`.
pub open spec fn minted(kind: Seq<char>, id: nat, uuid: u128, content: Seq<char>, created: Seq<char>) -> RequirementModel {
    RequirementModel {
        uuid,
        hrid: HridModel { namespace: Seq::empty(), kind, id },
        content,
        tags: Seq::empty(),
        created,
        parents: Seq::empty(),
    }
}

/// Relies on `chrono::Utc::now` and `DateTime::to_rfc3339`: the current time
/// as RFC 3339 text.
#[verifier::external_body]
fn now_rfc3339() -> String {
    chrono::Utc::now().to_rfc3339()
}

/// Node hrids and counters unchanged keep the index invariant.
proof fn lemma_index_kept(before: TreeModel, after: TreeModel)
    requires
        index_wf(before),
        after.wf(),
        after.counters == before.counters,
        after.nodes.len() == before.nodes.len(),
        forall|j: int| 0 <= j < before.nodes.len() ==> (#[trigger] after.nodes[j]).hrid == before.nodes[j].hrid,
    ensures
        index_wf(after),
{
    assert forall|i: int, j: int| 0 <= i < j < after.nodes.len() implies (#[trigger] after.nodes[i]).hrid
        != (#[trigger] after.nodes[j]).hrid by {
        assert(before.nodes[i].hrid != before.nodes[j].hrid);
    }
    assert forall|i: int| 0 <= i < after.nodes.len() implies (#[trigger] after.nodes[i]).hrid.id <= after.counter(
        after.nodes[i].hrid.kind,
    ) by {
        assert(before.nodes[i].hrid.id <= before.counter(before.nodes[i].hrid.kind));
    }
}

impl HridTree {
    /// Inserts a requirement that has no parent links yet, under its own UUID
    /// and HRID. Fails, changing nothing, when another UUID holds the HRID;
    /// otherwise behaves as [`Tree::insert_or_replace`]: a replaced
    /// requirement is returned as it was, and its parent links stay with the
    /// new one.
    pub fn insert(&mut self, requirement: Requirement) -> (r: Result<Option<Requirement>, InsertError>)
        requires
            old(self).wf(),
            requirement.wf(),
            valid_model(requirement@.hrid),
            requirement@.parents.len() == 0,
        ensures
            final(self).wf(),
            r is Err <==> exists|i: int|
                0 <= i < old(self)@.nodes.len() && (#[trigger] old(self)@.nodes[i]).hrid == requirement@.hrid
                    && old(self)@.nodes[i].uuid != requirement@.uuid,
            r matches Err(InsertError::HridConflict(h)) ==> h@ == requirement@.hrid && final(self)@
                == old(self)@,
            r matches Ok(prev) ==> (prev is None <==> !old(self)@.contains(requirement@.uuid)),
            forall|i: int|
                0 <= i < old(self)@.nodes.len() && (#[trigger] old(self)@.nodes[i]).uuid == requirement@.uuid
                    ==> (r matches Ok(Some(x)) ==> x@ == old(self)@.nodes[i]),
            r is Ok && !old(self)@.contains(requirement@.uuid) ==> final(self)@.nodes == old(
                self,
            )@.nodes.push(requirement@),
            r is Ok ==> forall|i: int|
                0 <= i < old(self)@.nodes.len() && (#[trigger] old(self)@.nodes[i]).uuid
                    == requirement@.uuid ==> final(self)@.nodes == old(self)@.nodes.update(
                    i,
                    RequirementModel { parents: old(self)@.nodes[i].parents, ..requirement@ },
                ),
            r is Ok ==> final(self)@.edges == old(self)@.edges,
            r is Ok ==> forall|k: Seq<char>|
                #![trigger final(self)@.counter(k)]
                final(self)@.counter(k) == if k == requirement@.hrid.kind {
                    if old(self)@.counter(k) < requirement@.hrid.id {
                        requirement@.hrid.id
                    } else {
                        old(self)@.counter(k)
                    }
                } else {
                    old(self)@.counter(k)
                },
    {
        let ghost before = self@;
        proof {
            self.tree.lemma_model_wf();
        }
        match self.find_hrid(requirement.hrid()) {
            Some(j) => {
                let holder = self.tree.requirements()[j].uuid();
                assert(holder == before.nodes[j as int].uuid);
                if holder != requirement.uuid() {
                    return Err(InsertError::HridConflict(requirement.hrid().copied()));
                }
            },
            None => {},
        }
        assert(forall|i: int| 0 <= i < before.nodes.len() && (#[trigger] before.nodes[i]).hrid
            == requirement@.hrid ==> before.nodes[i].uuid == requirement@.uuid) by {
            assert forall|i: int| 0 <= i < before.nodes.len() && (#[trigger] before.nodes[i]).hrid
                == requirement@.hrid implies before.nodes[i].uuid == requirement@.uuid by {
                let j = choose|j: int| 0 <= j < before.nodes.len() && (#[trigger] before.nodes[j]).hrid == requirement@.hrid;
                if i != j {
                    if i < j {
                        assert(before.nodes[i].hrid != before.nodes[j].hrid);
                    } else {
                        assert(before.nodes[j].hrid != before.nodes[i].hrid);
                    }
                }
            }
        }
        let r = self.tree.insert_or_replace(requirement);
        proof {
            self.tree.lemma_model_wf();
            let after = self@;
            let u = requirement@.uuid;
            assert forall|i: int| 0 <= i < after.nodes.len() implies (#[trigger] after.nodes[i]).hrid.id
                <= after.counter(after.nodes[i].hrid.kind) by {
                let k = after.nodes[i].hrid.kind;
                assert(after.counter(k) >= before.counter(k));
                assert(after.counter(requirement@.hrid.kind) >= requirement@.hrid.id);
                if after.nodes[i].hrid == requirement@.hrid {
                } else if i < before.nodes.len() && before.nodes[i].uuid != u {
                    if !before.contains(u) {
                        assert(after.nodes[i] == before.nodes[i]);
                    } else {
                        let ci = choose|ci: int| 0 <= ci < before.nodes.len() && (#[trigger] before.nodes[ci]).uuid == u;
                        assert(after.nodes[i] == before.nodes[i]);
                    }
                    assert(before.nodes[i].hrid.id <= before.counter(k));
                }
            }
            assert forall|i: int, j: int| 0 <= i < j < after.nodes.len() implies (#[trigger] after.nodes[i]).hrid
                != (#[trigger] after.nodes[j]).hrid by {
                if !before.contains(u) {
                    if j == before.nodes.len() {
                        assert(after.nodes[i] == before.nodes[i]);
                        if before.nodes[i].hrid == requirement@.hrid {
                            assert(before.nodes[i].uuid == u);
                        }
                    } else {
                        assert(after.nodes[i] == before.nodes[i]);
                        assert(after.nodes[j] == before.nodes[j]);
                    }
                } else {
                    let ci = choose|ci: int| 0 <= ci < before.nodes.len() && (#[trigger] before.nodes[ci]).uuid == u;
                    if i == ci {
                        assert(after.nodes[j] == before.nodes[j]);
                        assert(before.nodes[ci].uuid != before.nodes[j].uuid);
                    } else if j == ci {
                        assert(after.nodes[i] == before.nodes[i]);
                        assert(before.nodes[i].uuid != before.nodes[ci].uuid);
                    } else {
                        assert(after.nodes[i] == before.nodes[i]);
                        assert(after.nodes[j] == before.nodes[j]);
                    }
                }
            }
        }
        assert(index_wf(self@));
        Ok(r)
    }
}

impl HridTree {
    /// Adds a requirement of `kind` with the given UUID, body and creation
    /// time: its HRID is `KIND-n` where `n` is one more than the kind's
    /// counter, which advances to `n`. Ids are never reused.
    ///
    /// Fails, changing nothing, when the kind is not a valid segment, when
    /// its counter is at its maximum, or when the UUID is already present.
    pub fn add_with_uuid(&mut self, kind: String, content: String, created: String, uuid: u128) -> (r: Result<
        Hrid,
        AddError,
    >)
        requires
            old(self).wf(),
        ensures
            final(self).wf(),
            r matches Err(AddError::InvalidKind) <==> !valid_segment(kind@),
            r matches Err(AddError::KindExhausted) <==> valid_segment(kind@) && old(self)@.counter(kind@)
                == usize::MAX,
            r == Err::<Hrid, AddError>(AddError::UuidTaken(uuid)) <==> valid_segment(kind@) && old(
                self,
            )@.counter(kind@) < usize::MAX && old(self)@.contains(uuid),
            r is Err ==> r == Err::<Hrid, AddError>(AddError::InvalidKind) || r == Err::<Hrid, AddError>(
                AddError::KindExhausted,
            ) || r == Err::<Hrid, AddError>(AddError::UuidTaken(uuid)),
            r is Err ==> final(self)@ == old(self)@,
            r matches Ok(h) ==> h@ == (HridModel { namespace: Seq::empty(), kind: kind@, id: old(self)@.counter(kind@) + 1 })
                && final(self)@.nodes == old(self)@.nodes.push(
                minted(kind@, old(self)@.counter(kind@) + 1, uuid, content@, created@),
            ) && final(self)@.edges == old(self)@.edges && final(self)@.counter(kind@) == old(
                self,
            )@.counter(kind@) + 1,
            r is Ok ==> forall|k: Seq<char>|
                k != kind@ ==> #[trigger] final(self)@.counter(k) == old(self)@.counter(k),
    {
        if !crate::hrid::is_valid_segment(&kind) {
            return Err(AddError::InvalidKind);
        }
        proof {
            crate::index::lemma_counter_bound(self@.counters, kind@);
        }
        let id = match self.tree.next_index(&kind) {
            Some(n) => n,
            None => {
                return Err(AddError::KindExhausted);
            },
        };
        if self.tree.contains(uuid) {
            return Err(AddError::UuidTaken(uuid));
        }
        let ghost before = self@;
        proof {
            self.tree.lemma_model_wf();
        }
        let hrid = Hrid { namespace: Vec::new(), kind, id };
        let result = hrid.copied();
        let requirement = Requirement::with_details(uuid, hrid, content, Vec::new(), created);
        proof {
            assert(requirement@.hrid.namespace =~= Seq::<Seq<char>>::empty());
            assert(requirement@.hrid == HridModel { namespace: Seq::empty(), kind: kind@, id: id as nat });
            assert(requirement@.tags =~= Seq::<Seq<char>>::empty());
            assert(requirement@.parents =~= Seq::<(u128, crate::requirement::ParentModel)>::empty());
            assert(requirement@ == minted(kind@, id as nat, uuid, content@, created@));
            assert(forall|i: int| 0 <= i < before.nodes.len() ==> (#[trigger] before.nodes[i]).hrid != requirement@.hrid) by {
                assert forall|i: int| 0 <= i < before.nodes.len() implies (#[trigger] before.nodes[i]).hrid
                    != requirement@.hrid by {
                    assert(before.nodes[i].hrid.id <= before.counter(before.nodes[i].hrid.kind));
                }
            }
        }
        let r = self.insert(requirement);
        match r {
            Ok(_) => {},
            Err(_) => {
                proof {
                    assert(false);
                }
            },
        }
        Ok(result)
    }

    /// Adds a requirement of `kind` with a fresh random UUID, the given body
    /// and the current time; see [`HridTree::add_with_uuid`]. Returns the UUID
    /// and the new HRID.
    pub fn add(&mut self, kind: String, content: String) -> (r: Result<(u128, Hrid), AddError>)
        requires
            old(self).wf(),
        ensures
            final(self).wf(),
            r matches Err(AddError::InvalidKind) <==> !valid_segment(kind@),
            r matches Err(AddError::KindExhausted) <==> valid_segment(kind@) && old(self)@.counter(kind@)
                == usize::MAX,
            r is Err ==> final(self)@ == old(self)@,
            r matches Err(AddError::UuidTaken(u)) ==> old(self)@.contains(u),
            r is Ok ==> forall|k: Seq<char>|
                k != kind@ ==> #[trigger] final(self)@.counter(k) == old(self)@.counter(k),
            r matches Ok((u, h)) ==> final(self)@.nodes.last().tags.len() == 0
                && final(self)@.nodes.last().parents.len() == 0
                && final(self)@.nodes.drop_last() == old(self)@.nodes,
            r matches Ok((u, h)) ==> h@ == (HridModel { namespace: Seq::empty(), kind: kind@, id: old(self)@.counter(kind@) + 1 })
                && !old(self)@.contains(u) && final(self)@.nodes.len() == old(self)@.nodes.len() + 1
                && final(self)@.nodes.last().uuid == u && final(self)@.nodes.last().hrid == h@
                && final(self)@.nodes.last().content == content@ && final(self)@.edges == old(
                self,
            )@.edges && final(self)@.counter(kind@) == old(self)@.counter(kind@) + 1,
    {
        let uuid = fresh_uuid();
        let created = now_rfc3339();
        match self.add_with_uuid(kind, content, created, uuid) {
            Ok(h) => Ok((uuid, h)),
            Err(e) => Err(e),
        }
    }

    /// Links `child` to `parent` by UUID; see [`Tree::link`].
    pub fn link(&mut self, child: u128, parent: u128) -> (r: Result<(), LinkError>)
        requires
            old(self).wf(),
        ensures
            final(self).wf(),
            r == link_outcome(old(self)@, child, parent),
            r is Err ==> final(self)@ == old(self)@,
            r is Ok ==> final(self)@.edges == old(self)@.edges.insert(
                (child, parent),
                crate::requirement::fingerprint_of(old(self)@.node(parent).content),
            ),
            r is Ok ==> crate::tree::linked_to_current(old(self)@, final(self)@, child, parent),
    {
        let ghost before = self@;
        proof {
            self.tree.lemma_model_wf();
        }
        let r = self.tree.link(child, parent);
        proof {
            self.tree.lemma_model_wf();
            if r is Ok {
                let ci = choose|ci: int| 0 <= ci < before.nodes.len() && (#[trigger] before.nodes[ci]).uuid == child && crate::tree::linked(
                    before,
                    self@,
                    ci,
                    parent,
                    crate::requirement::ParentModel {
                        hrid: before.node(parent).hrid,
                        fingerprint: crate::requirement::fingerprint_of(before.node(parent).content),
                    },
                );
                assert forall|j: int| 0 <= j < before.nodes.len() implies (#[trigger] self@.nodes[j]).hrid
                    == before.nodes[j].hrid by {
                    if j != ci {
                        assert(self@.nodes[j] == before.nodes[j]);
                    }
                }
                lemma_index_kept(before, self@);
            }
        }
        r
    }

    /// Links `child` to `parent` by UUID, recording `recorded`; see
    /// [`Tree::link_recorded`].
    pub fn link_recorded(&mut self, child: u128, parent: u128, recorded: crate::requirement::Parent) -> (r: Result<(), LinkError>)
        requires
            old(self).wf(),
        ensures
            final(self).wf(),
            r == link_outcome(old(self)@, child, parent),
            r is Err ==> final(self)@ == old(self)@,
            r is Ok ==> exists|ci: int|
                0 <= ci < old(self)@.nodes.len() && (#[trigger] old(self)@.nodes[ci]).uuid == child
                    && crate::tree::linked(old(self)@, final(self)@, ci, parent, recorded@),
            r is Ok ==> final(self)@ == crate::tree::with_link(old(self)@, child, parent, recorded@),
    {
        let ghost before = self@;
        let ghost rv = recorded@;
        proof {
            self.tree.lemma_model_wf();
        }
        let r = self.tree.link_recorded(child, parent, recorded);
        proof {
            self.tree.lemma_model_wf();
            if r is Ok {
                let ci = choose|ci: int| 0 <= ci < before.nodes.len() && (#[trigger] before.nodes[ci]).uuid == child && crate::tree::linked(
                    before,
                    self@,
                    ci,
                    parent,
                    rv,
                );
                crate::tree::lemma_linked_is_with_link(before, self@, ci, parent, rv);
                assert forall|j: int| 0 <= j < before.nodes.len() implies (#[trigger] self@.nodes[j]).hrid
                    == before.nodes[j].hrid by {
                    if j != ci {
                        assert(self@.nodes[j] == before.nodes[j]);
                    }
                }
                lemma_index_kept(before, self@);
            }
        }
        r
    }

    /// Links the requirement with HRID `child` to the one with HRID `parent`.
    ///
    /// Fails, changing nothing, with `NotFound` naming the child when no
    /// requirement has its HRID (else naming the parent when none has that),
    /// with `SelfReference` when the two are the same, and with
    /// `WouldCreateCycle` when the parent already descends from the child.
    pub fn link_by_hrid(&mut self, child: &Hrid, parent: &Hrid) -> (r: Result<(), HridLinkError>)
        requires
            old(self).wf(),
        ensures
            final(self).wf(),
            r is Err ==> final(self)@ == old(self)@,
            !has_hrid(old(self)@, child@) ==> (r matches Err(HridLinkError::NotFound(h)) && h@ == child@),
            r matches Err(HridLinkError::SelfReference(h)) ==> h@ == child@,
            r matches Err(HridLinkError::WouldCreateCycle { child: c, parent: p }) ==> c@ == child@ && p@
                == parent@,
            has_hrid(old(self)@, child@) && !has_hrid(old(self)@, parent@) ==> (r matches Err(
                HridLinkError::NotFound(h),
            ) && h@ == parent@),
            has_hrid(old(self)@, child@) && has_hrid(old(self)@, parent@) ==> {
                let cu = uuid_of(old(self)@, child@);
                let pu = uuid_of(old(self)@, parent@);
                &&& (r is Ok <==> link_outcome(old(self)@, cu, pu) is Ok)
                &&& (r matches Err(HridLinkError::SelfReference(h)) <==> child@ == parent@)
                &&& (r matches Err(HridLinkError::WouldCreateCycle { .. }) <==> link_outcome(
                    old(self)@,
                    cu,
                    pu,
                ) is Err && child@ != parent@)
                &&& (r is Ok ==> final(self)@.edges == old(self)@.edges.insert(
                    (cu, pu),
                    crate::requirement::fingerprint_of(old(self)@.node(pu).content),
                ))
                &&& (r is Ok ==> crate::tree::linked_to_current(old(self)@, final(self)@, cu, pu))
            },
    {
        let ghost before = self@;
        proof {
            self.tree.lemma_model_wf();
        }
        let ci = match self.find_hrid(child) {
            Some(i) => i,
            None => {
                return Err(HridLinkError::NotFound(child.copied()));
            },
        };
        let pi = match self.find_hrid(parent) {
            Some(i) => i,
            None => {
                return Err(HridLinkError::NotFound(parent.copied()));
            },
        };
        let cu = self.tree.requirements()[ci].uuid();
        let pu = self.tree.requirements()[pi].uuid();
        proof {
            lemma_uuid_of(before, ci as int);
            lemma_uuid_of(before, pi as int);
            crate::tree::lemma_node_at(before, ci as int);
            crate::tree::lemma_node_at(before, pi as int);
            if cu == pu {
                assert(ci == pi) by {
                    if ci < pi {
                        assert(before.nodes[ci as int].uuid != before.nodes[pi as int].uuid);
                    } else if pi < ci {
                        assert(before.nodes[pi as int].uuid != before.nodes[ci as int].uuid);
                    }
                }
            }
        }
        match self.link(cu, pu) {
            Ok(()) => Ok(()),
            Err(LinkError::SelfReference(_)) => Err(HridLinkError::SelfReference(child.copied())),
            Err(LinkError::WouldCreateCycle { .. }) => Err(
                HridLinkError::WouldCreateCycle { child: child.copied(), parent: parent.copied() },
            ),
            Err(LinkError::RequirementNotFound(_)) => {
                proof {
                    assert(false);
                }
                Err(HridLinkError::NotFound(child.copied()))
            },
        }
    }

    /// Repairs every recorded parent HRID; see [`Tree::update_hrids`].
    pub fn update_hrids(&mut self) -> (r: Vec<u128>)
        requires
            old(self).wf(),
        ensures
            final(self).wf(),
            final(self)@ == crate::tree::reconciled(old(self)@),
            r@ == crate::tree::stale_uuids(old(self)@, old(self)@.nodes.len() as int),
    {
        let ghost before = self@;
        proof {
            self.tree.lemma_model_wf();
        }
        let r = self.tree.update_hrids();
        proof {
            self.tree.lemma_model_wf();
            lemma_index_kept(before, self@);
        }
        r
    }

    /// The direct parents of `u` with the fingerprints on the edges; see
    /// [`Tree::parents`].
    pub fn parents(&self, u: u128) -> (r: Vec<(u128, String)>)
        requires
            self.wf(),
        ensures
            forall|i: int|
                0 <= i < r@.len() ==> self@.edges.contains_key((u, (#[trigger] r@[i]).0))
                    && r@[i].1@ == self@.edges[(u, r@[i].0)],
            forall|p: u128|
                self@.edges.contains_key((u, p)) ==> exists|i: int| 0 <= i < r@.len() && (#[trigger] r@[i]).0 == p,
    {
        self.tree.parents(u)
    }
}

proof fn lemma_uuid_of(m: TreeModel, i: int)
    requires
        index_wf(m),
        0 <= i < m.nodes.len(),
    ensures
        uuid_of(m, m.nodes[i].hrid) == m.nodes[i].uuid,
{
    let h = m.nodes[i].hrid;
    let j = choose|j: int| 0 <= j < m.nodes.len() && (#[trigger] m.nodes[j]).hrid == h;
    if j < i {
        assert(m.nodes[j].hrid != m.nodes[i].hrid);
    } else if i < j {
        assert(m.nodes[i].hrid != m.nodes[j].hrid);
    }
}

impl Default for HridTree {
    fn default() -> (r: HridTree)
        ensures
            r.wf(),
            r@.nodes.len() == 0,
            r@.edges.dom().is_empty(),
            forall|k: Seq<char>| #[trigger] r@.counter(k) == 0,
    {
        HridTree::new()
    }
}

impl HridTree {
    /// Raises the counter for `kind` to at least `id`, as an index kept on
    /// disk may require; ids below it are then never minted.
    pub fn raise_counter(&mut self, kind: &String, id: usize)
        requires
            old(self).wf(),
        ensures
            final(self).wf(),
            final(self)@.nodes == old(self)@.nodes,
            final(self)@.edges == old(self)@.edges,
            forall|k: Seq<char>|
                #![trigger final(self)@.counter(k)]
                final(self)@.counter(k) == if k == kind@ {
                    if old(self)@.counter(k) < id {
                        id as nat
                    } else {
                        old(self)@.counter(k)
                    }
                } else {
                    old(self)@.counter(k)
                },
    {
        let ghost before = self@;
        proof {
            self.tree.lemma_model_wf();
        }
        self.tree.raise_counter(kind, id);
        proof {
            self.tree.lemma_model_wf();
            assert forall|i: int| 0 <= i < self@.nodes.len() implies (#[trigger] self@.nodes[i]).hrid.id
                <= self@.counter(self@.nodes[i].hrid.kind) by {
                assert(before.nodes[i].hrid.id <= before.counter(before.nodes[i].hrid.kind));
                assert(self@.counter(self@.nodes[i].hrid.kind) >= before.counter(before.nodes[i].hrid.kind));
            }
        }
    }
}

/// After a fresh requirement is inserted, it is the one stored under its
/// UUID and its HRID leads to that UUID; so inserting under the same UUID
/// again (see [`HridTree::insert`]) hands back exactly what was inserted.
pub proof fn lemma_insert_then_reinsert(m0: TreeModel, m1: TreeModel, r0: RequirementModel)
    requires
        index_wf(m1),
        m1.nodes == m0.nodes.push(r0),
    ensures
        m1.node(r0.uuid) == r0,
        has_hrid(m1, r0.hrid),
        uuid_of(m1, r0.hrid) == r0.uuid,
        forall|i: int| 0 <= i < m1.nodes.len() && (#[trigger] m1.nodes[i]).uuid == r0.uuid ==> m1.nodes[i] == r0,
{
    let n = m0.nodes.len() as int;
    assert(m1.nodes[n] == r0);
    assert forall|i: int| 0 <= i < m1.nodes.len() && (#[trigger] m1.nodes[i]).uuid == r0.uuid implies m1.nodes[i] == r0 by {
        if i != n {
            assert(m1.nodes[i].uuid != m1.nodes[n].uuid);
        }
    }
    crate::tree::lemma_node_at(m1, n);
    lemma_uuid_of(m1, n);
}

} // verus!
