//! The in-memory side of a directory of requirement files: which files make
//! up the graph, where each requirement is stored, and what must be written
//! after each change. Reading, writing and renaming files is left to the
//! caller, which reports back what it did.

use crate::config::{kind_allowed, Config};
use crate::hrid::{format_spec, parse_spec, valid_segment, Hrid, HridModel};
use crate::hrid_tree::{fresh_uuid, AddError, HridLinkError, HridTree};
use crate::requirement::{Parent, ParentModel, Requirement, RequirementModel};
use crate::text::push_char;
use std::collections::HashMap;
use crate::tree::{link_outcome, LinkError, TreeModel};
use vstd::prelude::*;

verus! {

broadcast use vstd::std_specs::hash::group_hash_axioms;

/// A parent link as stored in a file.
#[derive(Debug, Clone)]
pub struct ParentRecord {
    pub uuid: u128,
    pub fingerprint: String,
    pub hrid: String,
}

/// The front matter and body of one file.
#[derive(Debug, Clone)]
pub struct Record {
    pub uuid: u128,
    pub created: String,
    pub tags: Vec<String>,
    pub parents: Vec<ParentRecord>,
    pub content: String,
}

/// One file found under the root: its path, its name without extension, and
/// its decoded record (`None` when it could not be decoded).
#[derive(Debug, Clone)]
pub struct LoadedFile {
    pub path: String,
    pub stem: String,
    pub record: Option<Record>,
}

/// Errors of [`Directory::load`].
#[derive(Debug, Clone)]
pub enum LoadError {
    /// The files that could not be read as requirements, all of them.
    Unrecognised(Vec<String>),
    /// This file repeats a UUID already loaded.
    DuplicateUuid(String),
    /// This file repeats an HRID already loaded.
    HridConflict(String),
    /// A parent link of this file could not be restored.
    Link(String, LinkError),
}

/// Errors of adding a requirement.
#[derive(Debug, Clone, PartialEq, Eq)]
pub enum DirectoryAddError {
    /// The configuration does not allow this kind.
    KindNotAllowed,
    /// The in-memory index refused it.
    Index(AddError),
}

/// The file can be read as a requirement: it decoded and its name is an HRID.
pub open spec fn recognised(f: LoadedFile) -> bool {
    f.record is Some && parse_spec(f.stem@) is Ok
}

/// The paths of the files that cannot be read as requirements, in order.
pub open spec fn unrecognised_paths(files: Seq<LoadedFile>) -> Seq<Seq<char>>
    decreases files.len(),
{
    if files.len() == 0 {
        Seq::<Seq<char>>::empty()
    } else if recognised(files.last()) {
        unrecognised_paths(files.drop_last())
    } else {
        unrecognised_paths(files.drop_last()).push(files.last().path@)
    }
}

/// The UUIDs of the files that can be read as requirements, in order.
pub open spec fn recognised_uuids(files: Seq<LoadedFile>) -> Seq<u128>
    decreases files.len(),
{
    if files.len() == 0 {
        Seq::<u128>::empty()
    } else if recognised(files.last()) {
        recognised_uuids(files.drop_last()).push(files.last().record->Some_0.uuid)
    } else {
        recognised_uuids(files.drop_last())
    }
}

/// Every recognised file's UUID is among the recognised UUIDs.
proof fn lemma_recognised_in(files: Seq<LoadedFile>, i: int)
    requires
        0 <= i < files.len(),
        recognised(files[i]),
    ensures
        recognised_uuids(files).contains(files[i].record->Some_0.uuid),
    decreases files.len(),
{
    let u = files[i].record->Some_0.uuid;
    let r = recognised_uuids(files);
    if i == files.len() - 1 {
        assert(files.last() == files[i]);
        assert(r.last() == u);
        assert(r[r.len() - 1] == u);
    } else {
        assert(files.drop_last()[i] == files[i]);
        lemma_recognised_in(files.drop_last(), i);
        let p = recognised_uuids(files.drop_last());
        let k = choose|k: int| 0 <= k < p.len() && p[k] == u;
        if recognised(files.last()) {
            assert(r[k] == p[k]);
        } else {
            assert(r == p);
        }
    }
}

/// The UUID a recognised file records.
pub open spec fn file_uuid(f: LoadedFile) -> u128 {
    f.record->Some_0.uuid
}

/// The HRID a recognised file's name gives.
pub open spec fn file_hrid(f: LoadedFile) -> HridModel {
    parse_spec(f.stem@)->Ok_0
}

/// No two recognised files share a UUID or an HRID.
pub open spec fn distinct_files(files: Seq<LoadedFile>) -> bool {
    forall|i: int, j: int|
        0 <= i < j < files.len() && recognised(#[trigger] files[i]) && recognised(#[trigger] files[j])
            ==> file_uuid(files[i]) != file_uuid(files[j]) && file_hrid(files[i]) != file_hrid(files[j])
}

/// The requirement a recognised file stands for, before its links are restored.
pub open spec fn seeded_node(f: LoadedFile) -> RequirementModel {
    let rec = f.record->Some_0;
    RequirementModel {
        uuid: rec.uuid,
        hrid: file_hrid(f),
        content: rec.content@,
        tags: rec.tags@.map_values(|t: String| t@),
        created: rec.created@,
        parents: Seq::empty(),
    }
}

/// The requirements the recognised files stand for, in order.
pub open spec fn seeded(files: Seq<LoadedFile>) -> Seq<RequirementModel>
    decreases files.len(),
{
    if files.len() == 0 {
        Seq::<RequirementModel>::empty()
    } else if recognised(files.last()) {
        seeded(files.drop_last()).push(seeded_node(files.last()))
    } else {
        seeded(files.drop_last())
    }
}

/// The tree of the recognised files, with no links yet.
pub open spec fn seed_model(files: Seq<LoadedFile>) -> TreeModel {
    TreeModel { nodes: seeded(files), edges: Map::empty(), counters: Seq::empty() }
}

/// The largest id among the requirements of `kind` (zero if none).
pub open spec fn max_id(nodes: Seq<RequirementModel>, kind: Seq<char>) -> nat
    decreases nodes.len(),
{
    if nodes.len() == 0 {
        0
    } else {
        let prev = max_id(nodes.drop_last(), kind);
        if nodes.last().hrid.kind == kind && nodes.last().hrid.id > prev {
            nodes.last().hrid.id
        } else {
            prev
        }
    }
}

/// The parent a recorded link resolves to in `m`, with what the child will
/// record of it: the parent with the recorded UUID if there is one, else the
/// one with the recorded HRID; the recorded HRID is kept when it parses,
/// else the parent's own is taken.
pub open spec fn resolve(m: TreeModel, pr: ParentRecord) -> Option<(u128, ParentModel)> {
    let parsed = parse_spec(pr.hrid@);
    if m.contains(pr.uuid) {
        Some(
            (
                pr.uuid,
                ParentModel {
                    hrid: if parsed is Ok {
                        parsed->Ok_0
                    } else {
                        m.node(pr.uuid).hrid
                    },
                    fingerprint: pr.fingerprint@,
                },
            ),
        )
    } else if parsed is Ok && crate::hrid_tree::has_hrid(m, parsed->Ok_0) {
        Some(
            (
                crate::hrid_tree::uuid_of(m, parsed->Ok_0),
                ParentModel { hrid: parsed->Ok_0, fingerprint: pr.fingerprint@ },
            ),
        )
    } else {
        None
    }
}

/// One link to restore: the child, what it resolves to, and the file it comes from.
pub type LinkStep = (u128, Option<(u128, ParentModel)>, Seq<char>);

/// The links a recognised file records, in order.
pub open spec fn file_plan(m: TreeModel, f: LoadedFile) -> Seq<LinkStep> {
    f.record->Some_0.parents@.map_values(|pr: ParentRecord| (f.record->Some_0.uuid, resolve(m, pr), f.path@))
}

/// The links all recognised files record, file by file.
pub open spec fn plan(m: TreeModel, files: Seq<LoadedFile>) -> Seq<LinkStep>
    decreases files.len(),
{
    if files.len() == 0 {
        Seq::<LinkStep>::empty()
    } else if recognised(files.last()) {
        plan(m, files.drop_last()) + file_plan(m, files.last())
    } else {
        plan(m, files.drop_last())
    }
}

/// Restoring `steps` in order from `m`: the first link that fails stops it
/// with that file's path and the error; an unresolved link is dropped.
pub open spec fn restore(m: TreeModel, steps: Seq<LinkStep>) -> Result<TreeModel, (Seq<char>, LinkError)>
    decreases steps.len(),
{
    if steps.len() == 0 {
        Ok(m)
    } else {
        match restore(m, steps.drop_last()) {
            Err(e) => Err(e),
            Ok(m2) => {
                let s = steps.last();
                match s.1 {
                    None => Ok(m2),
                    Some((p, par)) => match link_outcome(m2, s.0, p) {
                        Err(e) => Err((s.2, e)),
                        Ok(_) => Ok(crate::tree::with_link(m2, s.0, p, par)),
                    },
                }
            },
        }
    }
}

/// A failed restoration stays failed, with the same error, whatever follows.
proof fn lemma_restore_err_prefix(m: TreeModel, a: Seq<LinkStep>, b: Seq<LinkStep>)
    requires
        restore(m, a) is Err,
        a.len() <= b.len(),
        b.take(a.len() as int) == a,
    ensures
        restore(m, b) == restore(m, a),
    decreases b.len(),
{
    if b.len() > a.len() {
        assert(b.drop_last().take(a.len() as int) =~= b.take(a.len() as int));
        lemma_restore_err_prefix(m, a, b.drop_last());
    } else {
        assert(b =~= a);
    }
}

/// The plan of a prefix of the files is a prefix of the plan.
proof fn lemma_plan_prefix(m: TreeModel, files: Seq<LoadedFile>, i: int)
    requires
        0 <= i <= files.len(),
    ensures
        plan(m, files.take(i)).len() <= plan(m, files).len(),
        plan(m, files).take(plan(m, files.take(i)).len() as int) == plan(m, files.take(i)),
    decreases files.len(),
{
    if i == files.len() {
        assert(files.take(i) =~= files);
        assert(plan(m, files).take(plan(m, files).len() as int) =~= plan(m, files));
    } else {
        assert(files.drop_last().take(i) =~= files.take(i));
        lemma_plan_prefix(m, files.drop_last(), i);
        let p = plan(m, files.drop_last());
        let q = plan(m, files.take(i));
        if recognised(files.last()) {
            assert((p + file_plan(m, files.last())).take(q.len() as int) =~= p.take(q.len() as int));
        }
    }
}

/// `a` and `b` hold requirements with the same UUIDs and HRIDs, position by
/// position, pairwise distinct in `b`.
pub open spec fn same_ids(a: TreeModel, b: TreeModel) -> bool {
    &&& a.nodes.len() == b.nodes.len()
    &&& forall|j: int|
        0 <= j < b.nodes.len() ==> (#[trigger] a.nodes[j]).uuid == b.nodes[j].uuid && a.nodes[j].hrid
            == b.nodes[j].hrid
    &&& forall|j: int, l: int|
        0 <= j < l < b.nodes.len() ==> (#[trigger] b.nodes[j]).uuid != (#[trigger] b.nodes[l]).uuid
            && b.nodes[j].hrid != b.nodes[l].hrid
}

/// Resolution reads only the UUIDs and HRIDs.
proof fn lemma_resolve_same(a: TreeModel, b: TreeModel, pr: ParentRecord)
    requires
        same_ids(a, b),
    ensures
        resolve(a, pr) == resolve(b, pr),
{
    let u = pr.uuid;
    assert(a.contains(u) == b.contains(u)) by {
        if a.contains(u) {
            let j = choose|j: int| 0 <= j < a.nodes.len() && (#[trigger] a.nodes[j]).uuid == u;
            assert(b.nodes[j].uuid == u);
        }
        if b.contains(u) {
            let j = choose|j: int| 0 <= j < b.nodes.len() && (#[trigger] b.nodes[j]).uuid == u;
            assert(a.nodes[j].uuid == u);
        }
    }
    if a.contains(u) {
        let ja = choose|j: int| 0 <= j < a.nodes.len() && (#[trigger] a.nodes[j]).uuid == u;
        let jb = choose|j: int| 0 <= j < b.nodes.len() && (#[trigger] b.nodes[j]).uuid == u;
        assert(b.nodes[ja].uuid == u);
        assert(ja == jb) by {
            if ja < jb {
                assert(b.nodes[ja].uuid != b.nodes[jb].uuid);
            } else if jb < ja {
                assert(b.nodes[jb].uuid != b.nodes[ja].uuid);
            }
        }
        assert(a.node(u).hrid == b.node(u).hrid);
    }
    let parsed = parse_spec(pr.hrid@);
    if parsed is Ok {
        let h = parsed->Ok_0;
        assert(crate::hrid_tree::has_hrid(a, h) == crate::hrid_tree::has_hrid(b, h)) by {
            if crate::hrid_tree::has_hrid(a, h) {
                let j = choose|j: int| 0 <= j < a.nodes.len() && (#[trigger] a.nodes[j]).hrid == h;
                assert(b.nodes[j].hrid == h);
            }
            if crate::hrid_tree::has_hrid(b, h) {
                let j = choose|j: int| 0 <= j < b.nodes.len() && (#[trigger] b.nodes[j]).hrid == h;
                assert(a.nodes[j].hrid == h);
            }
        }
        if crate::hrid_tree::has_hrid(a, h) {
            let ja = choose|j: int| 0 <= j < a.nodes.len() && (#[trigger] a.nodes[j]).hrid == h;
            let jb = choose|j: int| 0 <= j < b.nodes.len() && (#[trigger] b.nodes[j]).hrid == h;
            assert(b.nodes[ja].hrid == h);
            assert(ja == jb) by {
                if ja < jb {
                    assert(b.nodes[ja].hrid != b.nodes[jb].hrid);
                } else if jb < ja {
                    assert(b.nodes[jb].hrid != b.nodes[ja].hrid);
                }
            }
            assert(crate::hrid_tree::uuid_of(a, h) == crate::hrid_tree::uuid_of(b, h));
        }
    }
}

/// The canonical path of an identifier: `<root>/<HRID>.md`.
pub open spec fn canonical_spec(root: Seq<char>, h: HridModel, digits: nat) -> Seq<char> {
    root.push('/') + format_spec(h, digits) + seq!['.', 'm', 'd']
}

/// A requirements directory: the graph, the configuration, and the path at
/// which each requirement is stored when that is not its canonical one.
pub struct Directory {
    root: String,
    config: Config,
    tree: HridTree,
    paths: HashMap<u128, String>,
}

impl Directory {
    pub closed spec fn wf(&self) -> bool {
        self.tree.wf()
    }

    /// The graph's model.
    pub closed spec fn model(&self) -> TreeModel {
        self.tree@
    }

    pub closed spec fn root_view(&self) -> Seq<char> {
        self.root@
    }

    pub closed spec fn digits(&self) -> usize {
        self.config.digits
    }

    pub closed spec fn allowed(&self) -> Seq<String> {
        self.config.allowed_kinds@
    }

    /// An empty directory rooted at `root`.
    pub fn new(root: String, config: Config) -> (r: Directory)
        ensures
            r.wf(),
            r.model().nodes.len() == 0,
            r.model().edges.dom().is_empty(),
            forall|k: Seq<char>| #[trigger] r.model().counter(k) == 0,
            r.root_view() == root@,
            r.digits() == config.digits,
            r.allowed() == config.allowed_kinds@,
    {
        Directory { root, config, tree: HridTree::new(), paths: HashMap::new() }
    }

    /// The graph with its index.
    pub fn tree(&self) -> (r: &HridTree)
        requires
            self.wf(),
        ensures
            r.wf(),
            r@ == self.model(),
    {
        &self.tree
    }

    /// The canonical path of `hrid`: `<root>/<HRID>.md`, the id padded to the
    /// configured width.
    pub fn canonical_path(&self, hrid: &Hrid) -> (r: String)
        ensures
            r@ == canonical_spec(self.root_view(), hrid@, self.digits() as nat),
    {
        let mut out = self.root.clone();
        push_char(&mut out, '/');
        let name = hrid.format(self.config.digits);
        out.append(name.as_str());
        push_char(&mut out, '.');
        push_char(&mut out, 'm');
        push_char(&mut out, 'd');
        assert(out@ =~= canonical_spec(self.root_view(), hrid@, self.digits() as nat));
        out
    }

    /// The path recorded for `u`, if any.
    pub closed spec fn stored_at(&self, u: u128) -> Option<Seq<char>> {
        if self.paths@.contains_key(u) {
            Some(self.paths@[u]@)
        } else {
            None
        }
    }

    /// The path recorded for `uuid`, if any.
    fn tracked_path(&self, uuid: u128) -> (r: Option<String>)
        ensures
            r is Some <==> self.stored_at(uuid) is Some,
            r matches Some(p) ==> self.stored_at(uuid) == Some(p@),
    {
        match self.paths.get(&uuid) {
            Some(p) => Some(p.clone()),
            None => None,
        }
    }

    /// Where the requirement `uuid` is written: the path it was found at or
    /// last written to, else its canonical path; `None` for an unknown UUID.
    pub fn path_for(&self, uuid: u128) -> (r: Option<String>)
        requires
            self.wf(),
        ensures
            r is Some <==> self.model().contains(uuid),
            r matches Some(p) ==> p@ == match self.stored_at(uuid) {
                Some(q) => q,
                None => canonical_spec(
                    self.root_view(),
                    self.model().node(uuid).hrid,
                    self.digits() as nat,
                ),
            },
    {
        match self.tree.hrid(uuid) {
            None => None,
            Some(h) => match self.tracked_path(uuid) {
                Some(p) => Some(p),
                None => Some(self.canonical_path(h)),
            },
        }
    }

    /// Records that the requirement `uuid` is now stored at `path`.
    pub fn set_path(&mut self, uuid: u128, path: String)
        requires
            old(self).wf(),
        ensures
            final(self).wf(),
            final(self).model() == old(self).model(),
            final(self).root_view() == old(self).root_view(),
            final(self).digits() == old(self).digits(),
            final(self).allowed() == old(self).allowed(),
            final(self).stored_at(uuid) == Some(path@),
            forall|u: u128| u != uuid ==> #[trigger] final(self).stored_at(u) == old(self).stored_at(u),
    {
        self.paths.insert(uuid, path);
    }

    /// The record to write for `uuid`: its front matter and body, each parent
    /// link with the HRID it records.
    pub fn record_of(&self, uuid: u128) -> (r: Option<Record>)
        requires
            self.wf(),
        ensures
            r is Some <==> self.model().contains(uuid),
            r matches Some(rec) ==> {
                let n = self.model().node(uuid);
                &&& rec.uuid == uuid
                &&& rec.content@ == n.content
                &&& rec.created@ == n.created
                &&& rec.tags@.map_values(|t: String| t@) == n.tags
                &&& rec.parents@.len() == n.parents.len()
                &&& forall|k: int|
                    0 <= k < n.parents.len() ==> (#[trigger] rec.parents@[k]).uuid == n.parents[k].0
                        && rec.parents@[k].fingerprint@ == n.parents[k].1.fingerprint
                        && rec.parents@[k].hrid@ == format_spec(n.parents[k].1.hrid, self.digits() as nat)
            },
    {
        let (_, req) = match self.tree.get(uuid) {
            Some(x) => x,
            None => {
                return None;
            },
        };
        let ghost n = self.model().node(uuid);
        let ps = req.parents();
        let mut parents: Vec<ParentRecord> = Vec::new();
        let mut k: usize = 0;
        while k < ps.len()
            invariant
                k <= ps@.len(),
                crate::requirement::parents_view(ps@) == n.parents,
                parents@.len() == k,
                forall|j: int|
                    0 <= j < k ==> (#[trigger] parents@[j]).uuid == n.parents[j].0
                        && parents@[j].fingerprint@ == n.parents[j].1.fingerprint
                        && parents@[j].hrid@ == format_spec(n.parents[j].1.hrid, self.digits() as nat),
            decreases ps@.len() - k,
        {
            let (pu, p) = (ps[k].0, &ps[k].1);
            assert(n.parents[k as int] == (pu, p@));
            parents.push(
                ParentRecord {
                    uuid: pu,
                    fingerprint: p.fingerprint.clone(),
                    hrid: p.hrid.format(self.config.digits),
                },
            );
            k = k + 1;
        }
        let src = req.tags();
        let mut tags: Vec<String> = Vec::new();
        let mut j: usize = 0;
        while j < src.len()
            invariant
                j <= src@.len(),
                tags@.map_values(|t: String| t@) == src@.map_values(|t: String| t@).take(j as int),
            decreases src@.len() - j,
        {
            let ghost before = tags@;
            tags.push(src[j].clone());
            assert(tags@.map_values(|t: String| t@) =~= before.map_values(|t: String| t@).push(src@[j as int]@));
            j = j + 1;
            assert(src@.map_values(|t: String| t@).take(j as int) =~= src@.map_values(|t: String| t@).take(j - 1).push(src@[j - 1]@));
        }
        assert(src@.map_values(|t: String| t@).take(src@.len() as int) =~= src@.map_values(|t: String| t@));
        Some(
            Record {
                uuid,
                created: String::from_str(req.created()),
                tags,
                parents,
                content: String::from_str(req.content()),
            },
        )
    }
}

/// Whether a file can be read as a requirement, and its HRID when it can.
fn recognise(f: &LoadedFile) -> (r: Option<Hrid>)
    ensures
        r is Some <==> recognised(*f),
        r matches Some(h) ==> parse_spec(f.stem@) == Ok::<HridModel, crate::hrid::ErrorModel>(h@)
            && h.wf(),
{
    if f.record.is_none() {
        return None;
    }
    match Hrid::parse(f.stem.as_str()) {
        Ok(h) => Some(h),
        Err(_) => None,
    }
}

impl Directory {
    /// Builds a directory from the files found under `root`.
    ///
    /// Files that did not decode, or whose name is not an HRID, are
    /// unrecognised: unless the configuration allows them, loading fails
    /// with all their paths, in order. Otherwise they are skipped, every
    /// other file becomes a requirement, and then each recorded parent link
    /// is restored: to the parent with the recorded UUID, or, failing that,
    /// to the one with the recorded HRID (a link to neither is dropped).
    /// Loading fails at the first restored link that would be a
    /// self-reference or close a cycle; see [`restore`].
    #[verifier::rlimit(60)]
    pub fn load(root: String, config: Config, files: Vec<LoadedFile>) -> (r: Result<Directory, LoadError>)
        ensures
            (r matches Err(LoadError::Unrecognised(v))) <==> !config.allow_unrecognised
                && unrecognised_paths(files@).len() > 0,
            r matches Err(LoadError::Unrecognised(v)) ==> v@.map_values(|p: String| p@)
                == unrecognised_paths(files@),
            (r matches Err(LoadError::DuplicateUuid(_)) || r matches Err(LoadError::HridConflict(_)))
                <==> (config.allow_unrecognised || unrecognised_paths(files@).len() == 0)
                && !distinct_files(files@),
            r is Ok <==> (config.allow_unrecognised || unrecognised_paths(files@).len() == 0)
                && distinct_files(files@) && restore(seed_model(files@), plan(seed_model(files@), files@)) is Ok,
            r matches Ok(d) ==> d.wf() && d.model().uuids() == recognised_uuids(files@)
                && d.root_view() == root@ && d.digits() == config.digits,
            r matches Ok(d) ==> (restore(seed_model(files@), plan(seed_model(files@), files@)) matches Ok(m)
                && d.model().nodes == m.nodes && d.model().edges == m.edges),
            r matches Ok(d) ==> forall|k: Seq<char>| #[trigger] d.model().counter(k) == max_id(seeded(files@), k),
            r matches Ok(d) ==> forall|i: int|
                0 <= i < files@.len() && recognised(#[trigger] files@[i]) ==> d.stored_at(file_uuid(files@[i]))
                    == Some(files@[i].path@),
            r matches Err(LoadError::Link(p, e)) ==> (config.allow_unrecognised || unrecognised_paths(files@).len() == 0)
                && distinct_files(files@) && restore(seed_model(files@), plan(seed_model(files@), files@))
                == Err::<TreeModel, (Seq<char>, LinkError)>((p@, e)),
            (config.allow_unrecognised || unrecognised_paths(files@).len() == 0) && distinct_files(files@)
                && restore(seed_model(files@), plan(seed_model(files@), files@)) is Err ==> r matches Err(
                LoadError::Link(_, _),
            ),
    {
        let mut bad: Vec<String> = Vec::new();
        let mut i: usize = 0;
        while i < files.len()
            invariant
                i <= files@.len(),
                bad@.map_values(|p: String| p@) == unrecognised_paths(files@.take(i as int)),
            decreases files@.len() - i,
        {
            let ghost before = bad@;
            proof {
                assert(files@.take(i + 1).drop_last() =~= files@.take(i as int));
                assert(files@.take(i + 1).last() == files@[i as int]);
            }
            if recognise(&files[i]).is_none() {
                bad.push(files[i].path.clone());
                assert(bad@.map_values(|p: String| p@) =~= before.map_values(|p: String| p@).push(
                    files@[i as int].path@,
                ));
            }
            i = i + 1;
        }
        assert(files@.take(files@.len() as int) =~= files@);
        if !config.allow_unrecognised && bad.len() > 0 {
            return Err(LoadError::Unrecognised(bad));
        }
        let ghost allow = config.allow_unrecognised;
        let ghost digits = config.digits;
        assert(allow || unrecognised_paths(files@).len() == 0);
        let mut dir = Directory::new(root, config);
        let mut i: usize = 0;
        let ghost mut owner: Seq<int> = Seq::empty();
        assert(dir.model().uuids() =~= recognised_uuids(files@.take(0)));
        assert(files@.take(0) =~= Seq::<LoadedFile>::empty());
        while i < files.len()
            invariant
                dir.wf(),
                i <= files@.len(),
                dir.model().uuids() == recognised_uuids(files@.take(i as int)),
                dir.root_view() == root@,
                dir.digits() == digits,
                allow || unrecognised_paths(files@).len() == 0,
                allow == config.allow_unrecognised,
                distinct_files(files@.take(i as int)),
                owner.len() == dir.model().nodes.len(),
                forall|k: int|
                    0 <= k < owner.len() ==> 0 <= #[trigger] owner[k] < i && recognised(files@[owner[k]])
                        && dir.model().nodes[k].uuid == file_uuid(files@[owner[k]])
                        && dir.model().nodes[k].hrid == file_hrid(files@[owner[k]]),
                forall|m: int|
                    0 <= m < i && recognised(#[trigger] files@[m]) ==> exists|k: int|
                        0 <= k < dir.model().nodes.len() && dir.model().nodes[k].uuid == file_uuid(files@[m])
                            && dir.model().nodes[k].hrid == file_hrid(files@[m]),
                dir.model().nodes == seeded(files@.take(i as int)),
                dir.model().edges.dom().is_empty(),
                forall|kd: Seq<char>| #[trigger] dir.model().counter(kd) == max_id(seeded(files@.take(i as int)), kd),
                forall|m: int|
                    0 <= m < i && recognised(#[trigger] files@[m]) ==> dir.stored_at(file_uuid(files@[m]))
                        == Some(files@[m].path@),
            decreases files@.len() - i,
        {
            proof {
                assert(files@.take(i + 1).drop_last() =~= files@.take(i as int));
                assert(files@.take(i + 1).last() == files@[i as int]);
            }
            let f = &files[i];
            match recognise(f) {
                None => {
                    proof {
                        let t = files@.take(i + 1);
                        assert forall|a: int, b: int|
                            0 <= a < b < t.len() && recognised(#[trigger] t[a]) && recognised(#[trigger] t[b])
                                implies file_uuid(t[a]) != file_uuid(t[b]) && file_hrid(t[a]) != file_hrid(t[b]) by {
                            assert(b != i);
                            assert(t[a] == files@.take(i as int)[a]);
                            assert(t[b] == files@.take(i as int)[b]);
                        }
                    }
                },
                Some(hrid) => {
                    let rec = match &f.record {
                        Some(rec) => rec,
                        None => {
                            proof {
                                assert(false);
                            }
                            return Err(LoadError::DuplicateUuid(f.path.clone()));
                        },
                    };
                    let uuid = rec.uuid;
                    assert(uuid == file_uuid(files@[i as int]));
                    if dir.tree.get(uuid).is_some() {
                        proof {
                            let k = choose|k: int| 0 <= k < dir.model().nodes.len() && (#[trigger] dir.model().nodes[k]).uuid == uuid;
                            let m = owner[k];
                            assert(recognised(files@[m]) && recognised(files@[i as int]));
                            assert(!distinct_files(files@));
                        }
                        return Err(LoadError::DuplicateUuid(f.path.clone()));
                    }
                    let req = Requirement::with_details(
                        uuid,
                        hrid,
                        rec.content.clone(),
                        crate::text::copy_strings(&rec.tags),
                        rec.created.clone(),
                    );
                    proof {
                        assert(req@.parents =~= Seq::<(u128, ParentModel)>::empty());
                        assert(req@ == seeded_node(files@[i as int]));
                    }
                    let ghost before = dir.model();
                    assert(req@.hrid == file_hrid(files@[i as int]));
                    match dir.tree.insert(req) {
                        Ok(_) => {},
                        Err(_) => {
                            proof {
                                let k = choose|k: int| 0 <= k < before.nodes.len() && (#[trigger] before.nodes[k]).hrid == file_hrid(files@[i as int]) && before.nodes[k].uuid != uuid;
                                let m = owner[k];
                                assert(recognised(files@[m]) && recognised(files@[i as int]));
                                assert(!distinct_files(files@));
                            }
                            return Err(LoadError::HridConflict(f.path.clone()));
                        },
                    }
                    dir.set_path(uuid, f.path.clone());
                    proof {
                        assert forall|m: int|
                            0 <= m < i + 1 && recognised(#[trigger] files@[m]) implies dir.stored_at(file_uuid(files@[m]))
                                == Some(files@[m].path@) by {
                            if m < i {
                                assert(files@.take(i + 1)[m] == files@[m]);
                                assert(files@.take(i + 1)[i as int] == files@[i as int]);
                                assert(file_uuid(files@[m]) != uuid);
                            }
                        }
                        assert(dir.model().uuids() =~= before.uuids().push(uuid));
                        let after = dir.model();
                        assert(after.nodes == before.nodes.push(req@));
                        assert(seeded(files@.take(i + 1)) == seeded(files@.take(i as int)).push(seeded_node(files@[i as int])));
                        assert(seeded(files@.take(i + 1)).drop_last() =~= seeded(files@.take(i as int)));
                        assert forall|kd: Seq<char>| #[trigger] after.counter(kd) == max_id(seeded(files@.take(i + 1)), kd) by {
                            assert(before.counter(kd) == max_id(seeded(files@.take(i as int)), kd));
                        }
                        let t = files@.take(i + 1);
                        assert forall|a: int, b: int|
                            0 <= a < b < t.len() && recognised(#[trigger] t[a]) && recognised(#[trigger] t[b])
                                implies file_uuid(t[a]) != file_uuid(t[b]) && file_hrid(t[a]) != file_hrid(t[b]) by {
                            if b == i {
                                assert(t[a] == files@[a]);
                                assert(recognised(files@[a]));
                                let k = choose|k: int| 0 <= k < before.nodes.len() && before.nodes[k].uuid == file_uuid(files@[a]) && before.nodes[k].hrid == file_hrid(files@[a]);
                                assert(before.nodes[k].uuid != uuid) by {
                                    if before.nodes[k].uuid == uuid {
                                        assert(before.contains(uuid));
                                    }
                                }
                            } else {
                                assert(t[a] == files@.take(i as int)[a]);
                                assert(t[b] == files@.take(i as int)[b]);
                            }
                        }
                        let old_owner = owner;
                        owner = owner.push(i as int);
                        assert forall|k: int| 0 <= k < owner.len() implies 0 <= #[trigger] owner[k] < i + 1
                            && recognised(files@[owner[k]]) && after.nodes[k].uuid == file_uuid(files@[owner[k]])
                            && after.nodes[k].hrid == file_hrid(files@[owner[k]]) by {
                            if k < before.nodes.len() {
                                assert(after.nodes[k] == before.nodes[k]);
                                assert(owner[k] == old_owner[k]);
                            } else {
                                assert(after.nodes[k] == req@);
                            }
                        }
                        assert forall|m: int| 0 <= m < i + 1 && recognised(#[trigger] files@[m]) implies exists|k: int|
                            0 <= k < after.nodes.len() && after.nodes[k].uuid == file_uuid(files@[m])
                                && after.nodes[k].hrid == file_hrid(files@[m]) by {
                            if m < i {
                                let k = choose|k: int| 0 <= k < before.nodes.len() && before.nodes[k].uuid == file_uuid(files@[m]) && before.nodes[k].hrid == file_hrid(files@[m]);
                                assert(after.nodes[k] == before.nodes[k]);
                            } else {
                                assert(after.nodes[before.nodes.len() as int] == req@);
                            }
                        }
                    }
                },
            }
            i = i + 1;
        }
        assert(files@.take(files@.len() as int) =~= files@);
        assert(distinct_files(files@));
        proof {
            dir.tree.lemma_index_wf();
            let m = dir.model();
            assert forall|j: int, l: int| 0 <= j < l < m.nodes.len() implies (#[trigger] m.nodes[j]).uuid
                != (#[trigger] m.nodes[l]).uuid && m.nodes[j].hrid != m.nodes[l].hrid by {}
            assert(same_ids(dir.model(), seed_model(files@)));
        }
        let ghost phase1 = dir.model();
        match dir.restore_links(&files) {
            Ok(()) => {
                proof {
                    assert forall|kd: Seq<char>| #[trigger] dir.model().counter(kd) == max_id(seeded(files@), kd) by {
                        assert(phase1.counter(kd) == max_id(seeded(files@), kd));
                    }
                    assert(dir.model().uuids() =~= phase1.uuids()) by {
                        assert forall|j: int| 0 <= j < phase1.nodes.len() implies #[trigger] dir.model().uuids()[j] == phase1.uuids()[j] by {
                            assert(dir.model().nodes[j].uuid == seed_model(files@).nodes[j].uuid);
                        }
                    }
                }
                Ok(dir)
            },
            Err((p, e)) => Err(LoadError::Link(p, e)),
        }
    }
}

impl Directory {
    /// Prepares adding a requirement of `kind` under `uuid`: the HRID it
    /// will get and the canonical path to write it to. Nothing changes until
    /// [`Directory::commit_add`], so a failed write leaves no trace.
    ///
    /// Fails when the configuration does not allow the kind, when the kind
    /// is not a valid segment, when its counter is at its maximum, or when
    /// the UUID is already present, checked in that order.
    pub fn plan_add_with_uuid(&self, kind: &String, uuid: u128) -> (r: Result<(u128, Hrid, String), DirectoryAddError>)
        requires
            self.wf(),
        ensures
            r == Err::<(u128, Hrid, String), DirectoryAddError>(DirectoryAddError::KindNotAllowed)
                <==> !kind_allowed(self.allowed(), kind@),
            r == Err::<(u128, Hrid, String), DirectoryAddError>(DirectoryAddError::Index(AddError::InvalidKind))
                <==> kind_allowed(self.allowed(), kind@) && !valid_segment(kind@),
            r == Err::<(u128, Hrid, String), DirectoryAddError>(DirectoryAddError::Index(AddError::KindExhausted))
                <==> kind_allowed(self.allowed(), kind@) && valid_segment(kind@)
                && self.model().counter(kind@) == usize::MAX,
            r == Err::<(u128, Hrid, String), DirectoryAddError>(DirectoryAddError::Index(AddError::UuidTaken(uuid)))
                <==> kind_allowed(self.allowed(), kind@) && valid_segment(kind@)
                && self.model().counter(kind@) < usize::MAX && self.model().contains(uuid),
            r is Err ==> r == Err::<(u128, Hrid, String), DirectoryAddError>(DirectoryAddError::KindNotAllowed)
                || r == Err::<(u128, Hrid, String), DirectoryAddError>(DirectoryAddError::Index(AddError::InvalidKind))
                || r == Err::<(u128, Hrid, String), DirectoryAddError>(DirectoryAddError::Index(AddError::KindExhausted))
                || r == Err::<(u128, Hrid, String), DirectoryAddError>(DirectoryAddError::Index(AddError::UuidTaken(uuid))),
            r matches Ok((u, h, p)) ==> u == uuid && h@ == (HridModel {
                namespace: Seq::empty(),
                kind: kind@,
                id: self.model().counter(kind@) + 1,
            }) && p@ == canonical_spec(self.root_view(), h@, self.digits() as nat),
    {
        if !self.config.allows_kind(kind) {
            return Err(DirectoryAddError::KindNotAllowed);
        }
        if !crate::hrid::is_valid_segment(kind) {
            return Err(DirectoryAddError::Index(AddError::InvalidKind));
        }
        proof {
            crate::index::lemma_counter_bound(self.model().counters, kind@);
        }
        let id = match self.tree.tree().next_index(kind) {
            Some(n) => n,
            None => {
                return Err(DirectoryAddError::Index(AddError::KindExhausted));
            },
        };
        if self.tree.get(uuid).is_some() {
            return Err(DirectoryAddError::Index(AddError::UuidTaken(uuid)));
        }
        let hrid = Hrid { namespace: Vec::new(), kind: kind.clone(), id };
        assert(hrid@.namespace =~= Seq::<Seq<char>>::empty());
        let path = self.canonical_path(&hrid);
        Ok((uuid, hrid, path))
    }

    /// Prepares adding a requirement of `kind` under a fresh random UUID;
    /// see [`Directory::plan_add_with_uuid`], which decides everything once
    /// the UUID is drawn.
    pub fn plan_add(&self, kind: &String) -> (r: Result<(u128, Hrid, String), DirectoryAddError>)
        requires
            self.wf(),
        ensures
            r == Err::<(u128, Hrid, String), DirectoryAddError>(DirectoryAddError::KindNotAllowed)
                <==> !kind_allowed(self.allowed(), kind@),
            r == Err::<(u128, Hrid, String), DirectoryAddError>(DirectoryAddError::Index(AddError::InvalidKind))
                <==> kind_allowed(self.allowed(), kind@) && !valid_segment(kind@),
            r == Err::<(u128, Hrid, String), DirectoryAddError>(DirectoryAddError::Index(AddError::KindExhausted))
                <==> kind_allowed(self.allowed(), kind@) && valid_segment(kind@)
                && self.model().counter(kind@) == usize::MAX,
            kind_allowed(self.allowed(), kind@) && valid_segment(kind@) && self.model().counter(kind@)
                < usize::MAX ==> (r is Ok || r matches Err(DirectoryAddError::Index(AddError::UuidTaken(_)))),
            r matches Err(DirectoryAddError::Index(AddError::UuidTaken(u))) ==> self.model().contains(u),
            r matches Ok((u, h, p)) ==> !self.model().contains(u) && h@ == (HridModel {
                namespace: Seq::empty(),
                kind: kind@,
                id: self.model().counter(kind@) + 1,
            }) && p@ == canonical_spec(self.root_view(), h@, self.digits() as nat),
    {
        let uuid = fresh_uuid();
        self.plan_add_with_uuid(kind, uuid)
    }

    /// Registers the requirement planned by [`Directory::plan_add`] once its
    /// file is written: it gets the HRID the plan showed.
    pub fn commit_add(&mut self, kind: String, uuid: u128, created: String) -> (r: Result<Hrid, DirectoryAddError>)
        requires
            old(self).wf(),
        ensures
            final(self).wf(),
            final(self).root_view() == old(self).root_view(),
            final(self).digits() == old(self).digits(),
            r is Err ==> final(self).model() == old(self).model(),
            r == Err::<Hrid, DirectoryAddError>(DirectoryAddError::KindNotAllowed) <==> !kind_allowed(
                old(self).allowed(),
                kind@,
            ),
            r is Ok <==> kind_allowed(old(self).allowed(), kind@) && valid_segment(kind@) && old(
                self,
            ).model().counter(kind@) < usize::MAX && !old(self).model().contains(uuid),
            r matches Ok(h) ==> h@ == (HridModel {
                namespace: Seq::empty(),
                kind: kind@,
                id: old(self).model().counter(kind@) + 1,
            }) && final(self).model().nodes == old(self).model().nodes.push(
                crate::hrid_tree::minted(kind@, old(self).model().counter(kind@) + 1, uuid, Seq::empty(), created@),
            ),
    {
        if !self.config.allows_kind(&kind) {
            return Err(DirectoryAddError::KindNotAllowed);
        }
        let content = String::new();
        match self.tree.add_with_uuid(kind, content, created, uuid) {
            Ok(h) => Ok(h),
            Err(e) => Err(DirectoryAddError::Index(e)),
        }
    }

    /// Links the requirement with HRID `child` to the one with HRID
    /// `parent`; see [`HridTree::link_by_hrid`]. Returns the child's UUID,
    /// whose file is the one to write again.
    pub fn link(&mut self, child: &Hrid, parent: &Hrid) -> (r: Result<u128, HridLinkError>)
        requires
            old(self).wf(),
        ensures
            final(self).wf(),
            final(self).root_view() == old(self).root_view(),
            final(self).digits() == old(self).digits(),
            r is Err ==> final(self).model() == old(self).model(),
            !crate::hrid_tree::has_hrid(old(self).model(), child@) ==> (r matches Err(HridLinkError::NotFound(h))
                && h@ == child@),
            crate::hrid_tree::has_hrid(old(self).model(), child@) && !crate::hrid_tree::has_hrid(
                old(self).model(),
                parent@,
            ) ==> (r matches Err(HridLinkError::NotFound(h)) && h@ == parent@),
            r matches Err(HridLinkError::SelfReference(h)) ==> h@ == child@,
            crate::hrid_tree::has_hrid(old(self).model(), child@) && crate::hrid_tree::has_hrid(
                old(self).model(),
                parent@,
            ) ==> ((r matches Err(HridLinkError::SelfReference(_))) <==> child@ == parent@),
            r matches Err(HridLinkError::WouldCreateCycle { child: c, parent: p }) ==> c@ == child@ && p@
                == parent@,
            crate::hrid_tree::has_hrid(old(self).model(), child@) && crate::hrid_tree::has_hrid(
                old(self).model(),
                parent@,
            ) ==> ((r matches Err(HridLinkError::WouldCreateCycle { .. })) <==> link_outcome(
                old(self).model(),
                crate::hrid_tree::uuid_of(old(self).model(), child@),
                crate::hrid_tree::uuid_of(old(self).model(), parent@),
            ) is Err && child@ != parent@),
            r is Ok <==> crate::hrid_tree::has_hrid(old(self).model(), child@)
                && crate::hrid_tree::has_hrid(old(self).model(), parent@) && link_outcome(
                old(self).model(),
                crate::hrid_tree::uuid_of(old(self).model(), child@),
                crate::hrid_tree::uuid_of(old(self).model(), parent@),
            ) is Ok,
            r matches Ok(u) ==> crate::hrid_tree::has_hrid(old(self).model(), child@)
                && crate::hrid_tree::has_hrid(old(self).model(), parent@) && u == crate::hrid_tree::uuid_of(
                old(self).model(),
                child@,
            ) && link_outcome(
                old(self).model(),
                u,
                crate::hrid_tree::uuid_of(old(self).model(), parent@),
            ) is Ok && crate::tree::linked_to_current(
                old(self).model(),
                final(self).model(),
                u,
                crate::hrid_tree::uuid_of(old(self).model(), parent@),
            ) && final(self).model().edges == old(self).model().edges.insert(
                (u, crate::hrid_tree::uuid_of(old(self).model(), parent@)),
                crate::requirement::fingerprint_of(
                    old(self).model().node(crate::hrid_tree::uuid_of(old(self).model(), parent@)).content,
                ),
            ),
    {
        let u = match self.tree.get_by_hrid(child) {
            Some((u, _)) => u,
            None => {
                return Err(HridLinkError::NotFound(child.copied()));
            },
        };
        match self.tree.link_by_hrid(child, parent) {
            Ok(()) => Ok(u),
            Err(e) => Err(e),
        }
    }

    /// Repairs every recorded parent HRID; see [`HridTree::update_hrids`].
    /// Returns the UUIDs whose files must be written again.
    pub fn update_hrids(&mut self) -> (r: Vec<u128>)
        requires
            old(self).wf(),
        ensures
            final(self).wf(),
            final(self).root_view() == old(self).root_view(),
            final(self).digits() == old(self).digits(),
            final(self).model() == crate::tree::reconciled(old(self).model()),
            r@ == crate::tree::stale_uuids(old(self).model(), old(self).model().nodes.len() as int),
    {
        self.tree.update_hrids()
    }

    /// The requirements stored away from their canonical path: for each,
    /// once and in the graph's order, its UUID, where it is, and its
    /// canonical path.
    pub fn relocations(&self) -> (r: Vec<(u128, String, String)>)
        requires
            self.wf(),
        ensures
            forall|i: int|
                0 <= i < r@.len() ==> self.model().contains((#[trigger] r@[i]).0) && self.stored_at(r@[i].0)
                    == Some(r@[i].1@) && r@[i].1@ != r@[i].2@ && r@[i].2@ == canonical_spec(
                    self.root_view(),
                    self.model().node(r@[i].0).hrid,
                    self.digits() as nat,
                ),
            forall|u: u128|
                self.model().contains(u) && #[trigger] self.stored_at(u) is Some && self.stored_at(u)->Some_0
                    != canonical_spec(self.root_view(), self.model().node(u).hrid, self.digits() as nat)
                    ==> exists|i: int| 0 <= i < r@.len() && r@[i].0 == u,
            forall|i: int, j: int| 0 <= i < j < r@.len() ==> (#[trigger] r@[i]).0 != (#[trigger] r@[j]).0,
    {
        let uuids = self.tree.tree().uuids();
        proof {
            self.tree.lemma_index_wf();
        }
        let ghost m = self.model();
        let mut r: Vec<(u128, String, String)> = Vec::new();
        let ghost mut src: Seq<int> = Seq::empty();
        let mut i: usize = 0;
        while i < uuids.len()
            invariant
                self.wf(),
                m == self.model(),
                crate::hrid_tree::index_wf(m),
                uuids@ == m.uuids(),
                i <= uuids@.len(),
                src.len() == r@.len(),
                forall|k: int| 0 <= k < r@.len() ==> 0 <= #[trigger] src[k] < i && uuids@[src[k]] == r@[k].0,
                forall|k: int, l: int| 0 <= k < l < src.len() ==> src[k] < src[l],
                forall|k: int|
                    0 <= k < r@.len() ==> self.model().contains((#[trigger] r@[k]).0) && self.stored_at(r@[k].0)
                        == Some(r@[k].1@) && r@[k].1@ != r@[k].2@ && r@[k].2@ == canonical_spec(
                        self.root_view(),
                        self.model().node(r@[k].0).hrid,
                        self.digits() as nat,
                    ),
                forall|j: int|
                    0 <= j < i && #[trigger] self.stored_at(uuids@[j]) is Some && self.stored_at(uuids@[j])->Some_0
                        != canonical_spec(
                        self.root_view(),
                        self.model().node(uuids@[j]).hrid,
                        self.digits() as nat,
                    ) ==> exists|k: int| 0 <= k < r@.len() && src[k] == j,
            decreases uuids@.len() - i,
        {
            let u = uuids[i];
            let ghost before = r@;
            let ghost src0 = src;
            assert(m.nodes[i as int].uuid == u);
            assert(m.contains(u));
            match self.paths.get(&u) {
                Some(p) => {
                    let h = match self.tree.hrid(u) {
                        Some(h) => h,
                        None => {
                            return r;
                        },
                    };
                    let canonical = self.canonical_path(h);
                    if *p != canonical {
                        r.push((u, p.clone(), canonical));
                        proof {
                            src = src.push(i as int);
                            assert forall|k: int| 0 <= k < r@.len() implies 0 <= #[trigger] src[k] < i + 1 && uuids@[src[k]] == r@[k].0 by {
                                if k < before.len() {
                                    assert(r@[k] == before[k]);
                                    assert(src[k] == src0[k]);
                                }
                            }
                            assert forall|j: int|
                                0 <= j < i + 1 && #[trigger] self.stored_at(uuids@[j]) is Some && self.stored_at(uuids@[j])->Some_0
                                    != canonical_spec(
                                    self.root_view(),
                                    self.model().node(uuids@[j]).hrid,
                                    self.digits() as nat,
                                ) implies exists|k: int| 0 <= k < r@.len() && src[k] == j by {
                                if j < i {
                                    let k = choose|k: int| 0 <= k < before.len() && src0[k] == j;
                                    assert(src[k] == j);
                                } else {
                                    assert(src[before.len() as int] == j);
                                }
                            }
                            assert forall|k: int| 0 <= k < r@.len() implies self.model().contains((#[trigger] r@[k]).0) && self.stored_at(r@[k].0)
                                == Some(r@[k].1@) && r@[k].1@ != r@[k].2@ && r@[k].2@ == canonical_spec(
                                self.root_view(),
                                self.model().node(r@[k].0).hrid,
                                self.digits() as nat,
                            ) by {
                                if k < before.len() {
                                    assert(r@[k] == before[k]);
                                }
                            }
                        }
                    }
                },
                None => {},
            }
            i = i + 1;
        }
        proof {
            assert forall|u: u128|
                self.model().contains(u) && #[trigger] self.stored_at(u) is Some && self.stored_at(u)->Some_0
                    != canonical_spec(self.root_view(), self.model().node(u).hrid, self.digits() as nat)
                    implies exists|k: int| 0 <= k < r@.len() && r@[k].0 == u by {
                let j = choose|j: int| 0 <= j < m.nodes.len() && (#[trigger] m.nodes[j]).uuid == u;
                assert(uuids@[j] == u);
                let k = choose|k: int| 0 <= k < r@.len() && src[k] == j;
            }
            assert forall|a: int, b: int| 0 <= a < b < r@.len() implies (#[trigger] r@[a]).0 != (#[trigger] r@[b]).0 by {
                assert(src[a] < src[b]);
                assert(m.nodes[src[a]].uuid != m.nodes[src[b]].uuid);
            }
        }
        r
    }
}

impl Directory {
    /// Raises each counter to at least what `index` records for its kind.
    pub fn raise_counters(&mut self, index: &crate::index::Index)
        requires
            old(self).wf(),
            index.wf(),
        ensures
            final(self).wf(),
            final(self).model().nodes == old(self).model().nodes,
            final(self).model().edges == old(self).model().edges,
            final(self).root_view() == old(self).root_view(),
            final(self).digits() == old(self).digits(),
            forall|k: Seq<char>|
                #![trigger final(self).model().counter(k)]
                final(self).model().counter(k) == if old(self).model().counter(k) < crate::index::counter_of(
                    index@,
                    k,
                ) {
                    crate::index::counter_of(index@, k)
                } else {
                    old(self).model().counter(k)
                },
    {
        let entries = index.save();
        let mut i: usize = 0;
        assert(index@.take(0) =~= Seq::<(Seq<char>, usize)>::empty());
        while i < entries.kinds.len()
            invariant
                self.wf(),
                self.model().nodes == old(self).model().nodes,
                self.model().edges == old(self).model().edges,
                self.root_view() == old(self).root_view(),
                self.digits() == old(self).digits(),
                crate::index::toml_entries(entries) == index@,
                index.wf(),
                i <= entries.kinds@.len(),
                forall|k: Seq<char>|
                    #![trigger self.model().counter(k)]
                    self.model().counter(k) == if old(self).model().counter(k) < crate::index::counter_of(
                        index@.take(i as int),
                        k,
                    ) {
                        crate::index::counter_of(index@.take(i as int), k)
                    } else {
                        old(self).model().counter(k)
                    },
            decreases entries.kinds@.len() - i,
        {
            let ghost before = self.model();
            let ghost c = index@;
            self.tree.raise_counter(&entries.kinds[i].0, entries.kinds[i].1.latest_id);
            proof {
                assert(c[i as int] == (entries.kinds@[i as int].0@, entries.kinds@[i as int].1.latest_id));
                assert(c.take(i + 1).drop_last() =~= c.take(i as int));
                assert(c.take(i + 1).last() == c[i as int]);
                assert forall|j: int| 0 <= j < c.take(i as int).len() implies (#[trigger] c.take(i as int)[j]).0 != c[i as int].0 by {
                    assert(c.take(i as int)[j] == c[j]);
                    assert(c[j].0 != c[i as int].0);
                }
                crate::index::lemma_counter_absent(c.take(i as int), c[i as int].0);
                assert forall|k: Seq<char>| #[trigger] self.model().counter(k) == (if old(self).model().counter(k) < crate::index::counter_of(
                    c.take(i + 1),
                    k,
                ) {
                    crate::index::counter_of(c.take(i + 1), k)
                } else {
                    old(self).model().counter(k)
                }) by {
                    assert(before.counter(k) == (if old(self).model().counter(k) < crate::index::counter_of(c.take(i as int), k) {
                        crate::index::counter_of(c.take(i as int), k)
                    } else {
                        old(self).model().counter(k)
                    }));
                }
            }
            i = i + 1;
        }
        assert(index@.take(entries.kinds@.len() as int) =~= index@);
    }

    /// The per-kind counters, to keep on disk.
    pub fn counters(&self) -> (r: &crate::index::Index)
        requires
            self.wf(),
        ensures
            r@ == self.model().counters,
    {
        self.tree.tree().counters()
    }
}

impl Directory {
    /// Inserts a requirement with known identity, to be written to
    /// `path_hint` if given (else wherever it was already recorded, or its
    /// canonical path); see
    /// [`HridTree::insert`]. Fails, changing nothing, when another UUID
    /// holds its HRID.
    pub fn store(&mut self, requirement: Requirement, path_hint: Option<String>) -> (r: Result<
        Option<Requirement>,
        crate::hrid_tree::InsertError,
    >)
        requires
            old(self).wf(),
            requirement.wf(),
            crate::hrid::valid_model(requirement@.hrid),
            requirement@.parents.len() == 0,
        ensures
            final(self).wf(),
            final(self).root_view() == old(self).root_view(),
            final(self).digits() == old(self).digits(),
            r is Err <==> exists|i: int|
                0 <= i < old(self).model().nodes.len() && (#[trigger] old(self).model().nodes[i]).hrid
                    == requirement@.hrid && old(self).model().nodes[i].uuid != requirement@.uuid,
            r is Err ==> final(self).model() == old(self).model(),
            r is Ok && !old(self).model().contains(requirement@.uuid) ==> final(self).model().nodes
                == old(self).model().nodes.push(requirement@),
            r is Ok ==> final(self).model().edges == old(self).model().edges,
            r is Ok && path_hint is Some ==> final(self).stored_at(requirement@.uuid) == Some(
                path_hint->Some_0@,
            ),
            r matches Ok(prev) ==> (prev is None <==> !old(self).model().contains(requirement@.uuid)),
            r is Ok ==> forall|i: int|
                0 <= i < old(self).model().nodes.len() && (#[trigger] old(self).model().nodes[i]).uuid
                    == requirement@.uuid ==> final(self).model().nodes == old(self).model().nodes.update(
                    i,
                    RequirementModel { parents: old(self).model().nodes[i].parents, ..requirement@ },
                ),
            forall|i: int|
                0 <= i < old(self).model().nodes.len() && (#[trigger] old(self).model().nodes[i]).uuid
                    == requirement@.uuid ==> (r matches Ok(Some(x)) ==> x@ == old(self).model().nodes[i]),
            r is Err || path_hint is None ==> forall|u: u128| #[trigger] final(self).stored_at(u) == old(
                self,
            ).stored_at(u),
            forall|u: u128| u != requirement@.uuid ==> #[trigger] final(self).stored_at(u) == old(self).stored_at(u),
    {
        let uuid = requirement.uuid();
        let ghost m = self.model();
        let ghost rv = requirement@;
        let r = self.tree.insert(requirement);
        proof {
            if r is Err {
                let i = choose|i: int| 0 <= i < m.nodes.len() && (#[trigger] m.nodes[i]).hrid == rv.hrid && m.nodes[i].uuid != rv.uuid;
            }
            if exists|i: int| 0 <= i < m.nodes.len() && (#[trigger] m.nodes[i]).hrid == rv.hrid && m.nodes[i].uuid != rv.uuid {
                assert(r is Err);
            }
        }
        if r.is_ok() {
            match path_hint {
                Some(p) => self.set_path(uuid, p),
                None => {},
            }
        }
        r
    }
}

impl Directory {
    /// Restores one recorded link of the requirement `child`; see [`restore`].
    fn restore_step(&mut self, child: u128, pr: &ParentRecord, path: &String, Ghost(m1): Ghost<TreeModel>) -> (r: Result<(), (String, LinkError)>)
        requires
            old(self).wf(),
            same_ids(old(self).model(), m1),
        ensures
            final(self).wf(),
            same_ids(final(self).model(), m1),
            final(self).root_view() == old(self).root_view(),
            final(self).digits() == old(self).digits(),
            final(self).model().counters == old(self).model().counters,
            forall|u: u128| #[trigger] final(self).stored_at(u) == old(self).stored_at(u),
            resolve(m1, *pr) is None ==> r is Ok && final(self).model() == old(self).model(),
            resolve(m1, *pr) matches Some((p, par)) ==> {
                &&& (r is Ok <==> link_outcome(old(self).model(), child, p) is Ok)
                &&& (r is Ok ==> final(self).model() == crate::tree::with_link(old(self).model(), child, p, par))
                &&& (r matches Err((q, e)) ==> q@ == path@ && link_outcome(old(self).model(), child, p)
                    == Err::<(), LinkError>(e) && final(self).model() == old(self).model())
            },
    {
        let ghost cur = self.model();
        proof {
            lemma_resolve_same(cur, m1, *pr);
        }
        let recorded = Hrid::parse(pr.hrid.as_str());
        let target: Option<(u128, Hrid)> = match self.tree.get(pr.uuid) {
            Some((h, _)) => match recorded {
                Ok(rh) => Some((pr.uuid, rh)),
                Err(_) => Some((pr.uuid, h.copied())),
            },
            None => match recorded {
                Ok(rh) => match self.tree.get_by_hrid(&rh) {
                    Some((u, _)) => Some((u, rh)),
                    None => None,
                },
                Err(_) => None,
            },
        };
        match target {
            Some((pu, ph)) => {
                let parent = Parent { hrid: ph, fingerprint: pr.fingerprint.clone() };
                assert(resolve(cur, *pr) == Some::<(u128, ParentModel)>((pu, parent@)));
                let ghost before = self.model();
                let r = self.tree.link_recorded(child, pu, parent);
                proof {
                    if r is Ok {
                        let ci = choose|ci: int| 0 <= ci < before.nodes.len() && (#[trigger] before.nodes[ci]).uuid == child && crate::tree::linked(
                            before,
                            self.model(),
                            ci,
                            pu,
                            parent@,
                        );
                        assert forall|j: int| 0 <= j < m1.nodes.len() implies (#[trigger] self.model().nodes[j]).uuid
                            == m1.nodes[j].uuid && self.model().nodes[j].hrid == m1.nodes[j].hrid by {
                            if j != ci {
                                assert(self.model().nodes[j] == before.nodes[j]);
                            }
                        }
                    }
                }
                match r {
                    Ok(()) => Ok(()),
                    Err(e) => Err((path.clone(), e)),
                }
            },
            None => {
                assert(resolve(cur, *pr) is None);
                Ok(())
            },
        }
    }

    /// Restores, in order, the links that the recognised files record; see
    /// [`restore`].
    fn restore_links(&mut self, files: &Vec<LoadedFile>) -> (r: Result<(), (String, LinkError)>)
        requires
            old(self).wf(),
            same_ids(old(self).model(), seed_model(files@)),
            old(self).model().nodes == seeded(files@),
            old(self).model().edges.dom().is_empty(),
        ensures
            final(self).wf(),
            final(self).root_view() == old(self).root_view(),
            final(self).digits() == old(self).digits(),
            final(self).model().counters == old(self).model().counters,
            forall|u: u128| #[trigger] final(self).stored_at(u) == old(self).stored_at(u),
            same_ids(final(self).model(), seed_model(files@)),
            r is Ok <==> restore(seed_model(files@), plan(seed_model(files@), files@)) is Ok,
            r is Ok ==> (restore(seed_model(files@), plan(seed_model(files@), files@)) matches Ok(m)
                && final(self).model().nodes == m.nodes && final(self).model().edges == m.edges),
            r matches Err((p, e)) ==> restore(seed_model(files@), plan(seed_model(files@), files@))
                == Err::<TreeModel, (Seq<char>, LinkError)>((p@, e)),
    {
        let ghost m1 = seed_model(files@);
        assert(self.model().edges =~= m1.edges);
        assert(files@.take(0) =~= Seq::<LoadedFile>::empty());
        let mut i: usize = 0;
        while i < files.len()
            invariant
                self.wf(),
                m1 == seed_model(files@),
                same_ids(self.model(), m1),
                self.root_view() == old(self).root_view(),
                self.digits() == old(self).digits(),
                self.model().counters == old(self).model().counters,
                forall|u: u128| #[trigger] self.stored_at(u) == old(self).stored_at(u),
                i <= files@.len(),
                restore(m1, plan(m1, files@.take(i as int))) matches Ok(m) && self.model().nodes
                    == m.nodes && self.model().edges == m.edges,
            decreases files@.len() - i,
        {
            let ghost base = plan(m1, files@.take(i as int));
            proof {
                assert(files@.take(i + 1).drop_last() =~= files@.take(i as int));
                assert(files@.take(i + 1).last() == files@[i as int]);
            }
            let f = &files[i];
            if recognise(f).is_some() {
                match &f.record {
                    Some(rec) => {
                        let ghost fp = file_plan(m1, files@[i as int]);
                        assert(base + fp.take(0) =~= base);
                        let mut k: usize = 0;
                        while k < rec.parents.len()
                            invariant
                                self.wf(),
                                m1 == seed_model(files@),
                                same_ids(self.model(), m1),
                                self.root_view() == old(self).root_view(),
                                self.digits() == old(self).digits(),
                                self.model().counters == old(self).model().counters,
                                forall|u: u128| #[trigger] self.stored_at(u) == old(self).stored_at(u),
                                i < files@.len(),
                                recognised(files@[i as int]),
                                files@[i as int].record == Some(*rec),
                                files@[i as int].path == f.path,
                                base == plan(m1, files@.take(i as int)),
                                fp == file_plan(m1, files@[i as int]),
                                fp.len() == rec.parents@.len(),
                                k <= fp.len(),
                                restore(m1, base + fp.take(k as int)) matches Ok(m) && self.model().nodes
                                    == m.nodes && self.model().edges == m.edges,
                            decreases rec.parents@.len() - k,
                        {
                            let ghost pre = base + fp.take(k as int);
                            let ghost cur = self.model();
                            proof {
                                assert((base + fp.take(k + 1)).drop_last() =~= pre);
                                assert((base + fp.take(k + 1)).last() == fp[k as int]);
                                assert(fp[k as int] == (rec.uuid, resolve(m1, rec.parents@[k as int]), f.path@));
                            }
                            let step = self.restore_step(rec.uuid, &rec.parents[k], &f.path, Ghost(m1));
                            match step {
                                Ok(()) => {},
                                Err(e) => {
                                    proof {
                                        let a = base + fp.take(k + 1);
                                        assert(restore(m1, a) is Err);
                                        lemma_plan_prefix(m1, files@, i + 1);
                                        let b = plan(m1, files@.take(i + 1));
                                        assert(files@.take(i + 1).drop_last() =~= files@.take(i as int));
                                        assert(files@.take(i + 1).last() == files@[i as int]);
                                        assert(b == base + fp);
                                        let full = plan(m1, files@);
                                        assert(full.take(a.len() as int) =~= a) by {
                                            assert(full.take(b.len() as int) == b);
                                            assert forall|t: int| 0 <= t < a.len() implies full[t] == a[t] by {
                                                assert(full.take(b.len() as int)[t] == b[t]);
                                            }
                                        }
                                        lemma_restore_err_prefix(m1, a, full);
                                    }
                                    return Err(e);
                                },
                            }
                            k = k + 1;
                        }
                        proof {
                            assert(fp.take(fp.len() as int) =~= fp);
                        }
                    },
                    None => {},
                }
            }
            i = i + 1;
        }
        assert(files@.take(files@.len() as int) =~= files@);
        Ok(())
    }
}

} // verus!
