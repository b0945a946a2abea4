//! One requirement document: identity, content, tags and parent links.

use crate::hrid::{Hrid, HridModel};
use crate::text::push_char;
use vstd::prelude::*;

verus! {

/// Offset basis of the 64-bit FNV-1a hash.
pub const FNV_OFFSET: u64 = 0xcbf29ce484222325;

/// Prime of the 64-bit FNV-1a hash.
pub const FNV_PRIME: u64 = 0x100000001b3;

/// Number of hexadecimal digits in a fingerprint.
pub const FINGERPRINT_DIGITS: usize = 16;

/// 64-bit FNV-1a hash of a byte string.
pub open spec fn fnv1a(bytes: Seq<u8>) -> u64
    decreases bytes.len(),
{
    if bytes.len() == 0 {
        FNV_OFFSET
    } else {
        (fnv1a(bytes.drop_last()) ^ (bytes.last() as u64)).wrapping_mul(FNV_PRIME)
    }
}

pub open spec fn hex_char(d: nat) -> char {
    if d < 10 {
        (d + '0' as nat) as char
    } else {
        (d - 10 + 'a' as nat) as char
    }
}

/// The low `width` hexadecimal digits of `n`, most significant first.
pub open spec fn hex_fixed(n: nat, width: nat) -> Seq<char>
    decreases width,
{
    if width == 0 {
        Seq::<char>::empty()
    } else {
        hex_fixed(n / 16, (width - 1) as nat).push(hex_char(n % 16))
    }
}

/// The fingerprint of a body of text: the FNV-1a hash of its UTF-8 bytes, as
/// sixteen lower-case hexadecimal digits.
pub open spec fn fingerprint_of(content: Seq<char>) -> Seq<char> {
    hex_fixed(fnv1a(vstd::utf8::encode_utf8(content)) as nat, FINGERPRINT_DIGITS as nat)
}

/// What a child records about one of its parents.
#[derive(Debug, Clone)]
pub struct Parent {
    /// The parent's HRID, as last known.
    pub hrid: Hrid,
    /// The parent's fingerprint at the time of linking.
    pub fingerprint: String,
}

pub struct ParentModel {
    pub hrid: HridModel,
    pub fingerprint: Seq<char>,
}

impl View for Parent {
    type V = ParentModel;

    open spec fn view(&self) -> ParentModel {
        ParentModel { hrid: self.hrid@, fingerprint: self.fingerprint@ }
    }
}

impl Parent {
    /// A copy with the same model.
    pub fn copied(&self) -> (r: Parent)
        ensures
            r@ == self@,
    {
        Parent { hrid: self.hrid.copied(), fingerprint: self.fingerprint.clone() }
    }
}

/// A requirement: a stable UUID, a mutable HRID, an opaque body, a set of
/// tags, a creation timestamp (RFC 3339 text) and its parent links keyed by
/// the parent's UUID.
#[derive(Debug, Clone)]
pub struct Requirement {
    uuid: u128,
    hrid: Hrid,
    content: String,
    tags: Vec<String>,
    created: String,
    parents: Vec<(u128, Parent)>,
}

pub struct RequirementModel {
    pub uuid: u128,
    pub hrid: HridModel,
    pub content: Seq<char>,
    pub tags: Seq<Seq<char>>,
    pub created: Seq<char>,
    pub parents: Seq<(u128, ParentModel)>,
}

pub open spec fn parents_view(v: Seq<(u128, Parent)>) -> Seq<(u128, ParentModel)> {
    v.map_values(|e: (u128, Parent)| (e.0, e.1@))
}

impl View for Requirement {
    type V = RequirementModel;

    closed spec fn view(&self) -> RequirementModel {
        RequirementModel {
            uuid: self.uuid,
            hrid: self.hrid@,
            content: self.content@,
            tags: self.tags@.map_values(|t: String| t@),
            created: self.created@,
            parents: parents_view(self.parents@),
        }
    }
}

/// The parent links name each parent once, and never the requirement itself.
pub open spec fn parents_wf(uuid: u128, parents: Seq<(u128, ParentModel)>) -> bool {
    &&& forall|i: int| 0 <= i < parents.len() ==> (#[trigger] parents[i]).0 != uuid
    &&& forall|i: int, j: int|
        0 <= i < j < parents.len() ==> (#[trigger] parents[i]).0 != (#[trigger] parents[j]).0
}

impl RequirementModel {
    pub open spec fn wf(self) -> bool {
        parents_wf(self.uuid, self.parents)
    }
}

/// Appends the low `width` hexadecimal digits of `n`.
fn push_hex(n: u64, width: usize, out: &mut String)
    ensures
        final(out)@ == old(out)@ + hex_fixed(n as nat, width as nat),
    decreases width,
{
    if width > 0 {
        push_hex(n / 16, width - 1, out);
        let d = n % 16;
        let c = if d < 10 {
            ((d as u8) + 48u8) as char
        } else {
            ((d as u8) - 10 + 97u8) as char
        };
        push_char(out, c);
        assert(out@ =~= old(out)@ + hex_fixed(n as nat, width as nat));
    }
}

impl Requirement {
    pub open spec fn wf(&self) -> bool {
        self@.wf()
    }

    /// A fresh requirement with no tags, no parents and no creation time.
    pub fn new(uuid: u128, hrid: Hrid, content: String) -> (r: Requirement)
        ensures
            r@.uuid == uuid,
            r@.hrid == hrid@,
            r@.content == content@,
            r@.tags.len() == 0,
            r@.created.len() == 0,
            r@.parents.len() == 0,
            r.wf(),
    {
        let r = Requirement {
            uuid,
            hrid,
            content,
            tags: Vec::new(),
            created: String::new(),
            parents: Vec::new(),
        };
        assert(r@.tags =~= Seq::<Seq<char>>::empty());
        assert(r@.parents =~= Seq::<(u128, ParentModel)>::empty());
        r
    }

    /// A requirement with the given tags and creation time and no parents.
    pub fn with_details(
        uuid: u128,
        hrid: Hrid,
        content: String,
        tags: Vec<String>,
        created: String,
    ) -> (r: Requirement)
        ensures
            r@.uuid == uuid,
            r@.hrid == hrid@,
            r@.content == content@,
            r@.tags == tags@.map_values(|t: String| t@),
            r@.created == created@,
            r@.parents.len() == 0,
            r.wf(),
    {
        let r = Requirement { uuid, hrid, content, tags, created, parents: Vec::new() };
        assert(r@.parents =~= Seq::<(u128, ParentModel)>::empty());
        r
    }

    pub fn uuid(&self) -> (r: u128)
        ensures
            r == self@.uuid,
    {
        self.uuid
    }

    pub fn hrid(&self) -> (r: &Hrid)
        ensures
            r@ == self@.hrid,
    {
        &self.hrid
    }

    pub fn content(&self) -> (r: &str)
        ensures
            r@ == self@.content,
    {
        self.content.as_str()
    }

    pub fn tags(&self) -> (r: &Vec<String>)
        ensures
            r@.map_values(|t: String| t@) == self@.tags,
    {
        &self.tags
    }

    pub fn created(&self) -> (r: &str)
        ensures
            r@ == self@.created,
    {
        self.created.as_str()
    }

    /// The parent links, each parent once.
    pub fn parents(&self) -> (r: &Vec<(u128, Parent)>)
        ensures
            parents_view(r@) == self@.parents,
    {
        &self.parents
    }

    /// The content-derived fingerprint.
    pub fn fingerprint(&self) -> (r: String)
        ensures
            r@ == fingerprint_of(self@.content),
    {
        let bytes = self.content.as_str().as_bytes();
        let mut h: u64 = FNV_OFFSET;
        let mut i: usize = 0;
        while i < bytes.len()
            invariant
                bytes@ == vstd::utf8::encode_utf8(self.content@),
                i <= bytes@.len(),
                h == fnv1a(bytes@.take(i as int)),
            decreases bytes@.len() - i,
        {
            assert(bytes@.take(i + 1).drop_last() =~= bytes@.take(i as int));
            h = (h ^ (bytes[i] as u64)).wrapping_mul(FNV_PRIME);
            i = i + 1;
        }
        assert(bytes@.take(bytes@.len() as int) =~= bytes@);
        let mut out = String::new();
        push_hex(h, FINGERPRINT_DIGITS, &mut out);
        assert(out@ =~= fingerprint_of(self@.content));
        out
    }

    /// Records `parent` as the link to the parent with UUID `uuid`, replacing
    /// and returning any earlier link to that parent.
    pub fn add_parent(&mut self, uuid: u128, parent: Parent) -> (r: Option<Parent>)
        requires
            old(self).wf(),
            uuid != old(self)@.uuid,
        ensures
            final(self).wf(),
            final(self)@.uuid == old(self)@.uuid,
            final(self)@.hrid == old(self)@.hrid,
            final(self)@.content == old(self)@.content,
            final(self)@.tags == old(self)@.tags,
            final(self)@.created == old(self)@.created,
            r is Some <==> has_parent(old(self)@.parents, uuid),
            forall|i: int|
                0 <= i < old(self)@.parents.len() && (#[trigger] old(self)@.parents[i]).0 == uuid
                    ==> final(self)@.parents == old(self)@.parents.update(i, (uuid, parent@)) && (
                r matches Some(p) && p@ == old(self)@.parents[i].1),
            !has_parent(old(self)@.parents, uuid) ==> final(self)@.parents == old(
                self,
            )@.parents.push((uuid, parent@)),
    {
        let ghost old_self = self@;
        let mut i: usize = 0;
        while i < self.parents.len()
            invariant
                self@ == old_self,
                old_self == old(self)@,
                old_self.wf(),
                uuid != old_self.uuid,
                i <= self.parents@.len(),
                forall|k: int| 0 <= k < i ==> (#[trigger] self.parents@[k]).0 != uuid,
            decreases self.parents@.len() - i,
        {
            if self.parents[i].0 == uuid {
                let mut entry = (uuid, parent);
                self.parents.set_and_swap(i, &mut entry);
                proof {
                    assert(old_self.parents[i as int].0 == uuid);
                    assert(parents_view(self.parents@) =~= old_self.parents.update(
                        i as int,
                        (uuid, parent@),
                    ));
                    assert forall|k: int|
                        0 <= k < old_self.parents.len() && (#[trigger] old_self.parents[k]).0
                            == uuid implies k == i by {
                        if k != i {
                            assert(old_self.parents[k].0 != old_self.parents[i as int].0);
                        }
                    }
                }
                return Some(entry.1);
            }
            assert(self@.parents[i as int].0 == self.parents@[i as int].0);
            i = i + 1;
        }
        self.parents.push((uuid, parent));
        proof {
            assert(parents_view(self.parents@) =~= old_self.parents.push((uuid, parent@)));
            assert forall|k: int| 0 <= k < old_self.parents.len() implies (#[trigger] old_self.parents[k]).0 != uuid by {
                assert(old_self.parents[k].0 == self.parents@[k].0);
            }
        }
        None
    }
}

impl Requirement {
    /// Exchanges the parent links of two requirements with the same UUID.
    pub fn swap_parents(&mut self, other: &mut Requirement)
        requires
            old(self)@.uuid == old(other)@.uuid,
            old(self).wf(),
            old(other).wf(),
        ensures
            final(self).wf(),
            final(other).wf(),
            final(self)@ == (RequirementModel { parents: old(other)@.parents, ..old(self)@ }),
            final(other)@ == (RequirementModel { parents: old(self)@.parents, ..old(other)@ }),
    {
        core::mem::swap(&mut self.parents, &mut other.parents);
    }

    /// Removes the link to the parent `uuid`, returning it.
    pub fn remove_parent(&mut self, uuid: u128) -> (r: Option<Parent>)
        requires
            old(self).wf(),
        ensures
            final(self).wf(),
            r is Some <==> has_parent(old(self)@.parents, uuid),
            forall|i: int|
                0 <= i < old(self)@.parents.len() && (#[trigger] old(self)@.parents[i]).0 == uuid
                    ==> final(self)@ == (RequirementModel {
                    parents: old(self)@.parents.remove(i),
                    ..old(self)@
                }) && (r matches Some(p) && p@ == old(self)@.parents[i].1),
            !has_parent(old(self)@.parents, uuid) ==> final(self)@ == old(self)@,
    {
        let ghost old_self = self@;
        let mut i: usize = 0;
        while i < self.parents.len()
            invariant
                self@ == old_self,
                old_self == old(self)@,
                old_self.wf(),
                i <= self.parents@.len(),
                forall|k: int| 0 <= k < i ==> (#[trigger] self.parents@[k]).0 != uuid,
            decreases self.parents@.len() - i,
        {
            if self.parents[i].0 == uuid {
                let entry = self.parents.remove(i);
                proof {
                    assert(old_self.parents[i as int].0 == uuid);
                    assert(parents_view(self.parents@) =~= old_self.parents.remove(i as int));
                    assert forall|k: int|
                        0 <= k < old_self.parents.len() && (#[trigger] old_self.parents[k]).0
                            == uuid implies k == i by {
                        if k != i {
                            assert(old_self.parents[k].0 != old_self.parents[i as int].0);
                        }
                    }
                    let np = self@.parents;
                    assert forall|a: int, b: int| 0 <= a < b < np.len() implies (#[trigger] np[a]).0
                        != (#[trigger] np[b]).0 by {
                        let a2 = if a < i { a } else { a + 1 };
                        let b2 = if b < i { b } else { b + 1 };
                        assert(np[a] == old_self.parents[a2]);
                        assert(np[b] == old_self.parents[b2]);
                    }
                    assert forall|a: int| 0 <= a < np.len() implies (#[trigger] np[a]).0 != self@.uuid by {
                        let a2 = if a < i { a } else { a + 1 };
                        assert(np[a] == old_self.parents[a2]);
                    }
                }
                return Some(entry.1);
            }
            assert(self@.parents[i as int].0 == self.parents@[i as int].0);
            i = i + 1;
        }
        proof {
            assert forall|k: int| 0 <= k < old_self.parents.len() implies (#[trigger] old_self.parents[k]).0 != uuid by {
                assert(old_self.parents[k].0 == self.parents@[k].0);
            }
        }
        None
    }
}

impl Requirement {
    /// Replaces all parent links.
    pub fn set_parents(&mut self, parents: Vec<(u128, Parent)>)
        requires
            parents_wf(old(self)@.uuid, parents_view(parents@)),
        ensures
            final(self).wf(),
            final(self)@ == (RequirementModel { parents: parents_view(parents@), ..old(self)@ }),
    {
        self.parents = parents;
    }
}

impl Requirement {
    /// A copy of the parent links.
    pub fn parents_copy(&self) -> (r: Vec<(u128, Parent)>)
        ensures
            parents_view(r@) == self@.parents,
    {
        let mut r: Vec<(u128, Parent)> = Vec::new();
        let mut k: usize = 0;
        while k < self.parents.len()
            invariant
                k <= self.parents@.len(),
                parents_view(r@) == parents_view(self.parents@).take(k as int),
            decreases self.parents@.len() - k,
        {
            let ghost before = r@;
            let e = (self.parents[k].0, self.parents[k].1.copied());
            r.push(e);
            assert(parents_view(r@) =~= parents_view(before).push((e.0, e.1@)));
            k = k + 1;
            assert(parents_view(self.parents@).take(k as int) =~= parents_view(self.parents@).take(k - 1).push(
                (e.0, e.1@),
            ));
        }
        assert(parents_view(self.parents@).take(k as int) =~= parents_view(self.parents@));
        r
    }
}

/// Some link names the parent `uuid`.
pub open spec fn has_parent(parents: Seq<(u128, ParentModel)>, uuid: u128) -> bool {
    exists|i: int| 0 <= i < parents.len() && (#[trigger] parents[i]).0 == uuid
}

} // verus!
