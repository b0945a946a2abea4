//! The per-kind high-water marks of HRID ids.

use vstd::prelude::*;

verus! {

/// The highest id recorded for `kind` (zero if none).
pub open spec fn counter_of(counters: Seq<(Seq<char>, usize)>, kind: Seq<char>) -> nat
    decreases counters.len(),
{
    if counters.len() == 0 {
        0
    } else if counters.last().0 == kind {
        counters.last().1 as nat
    } else {
        counter_of(counters.drop_last(), kind)
    }
}

pub open spec fn counters_unique(counters: Seq<(Seq<char>, usize)>) -> bool {
    forall|i: int, j: int|
        0 <= i < j < counters.len() ==> (#[trigger] counters[i]).0 != (#[trigger] counters[j]).0
}

pub proof fn lemma_counter_update(c: Seq<(Seq<char>, usize)>, i: int, v: usize, kind: Seq<char>)
    requires
        counters_unique(c),
        0 <= i < c.len(),
    ensures
        counter_of(c.update(i, (c[i].0, v)), kind) == if kind == c[i].0 {
            v as nat
        } else {
            counter_of(c, kind)
        },
    decreases c.len(),
{
    let c2 = c.update(i, (c[i].0, v));
    if i == c.len() - 1 {
        assert(c2.drop_last() =~= c.drop_last());
        if kind != c[i].0 {
        }
    } else {
        assert(c2.drop_last() =~= c.drop_last().update(i, (c[i].0, v)));
        assert(c.last() == c[c.len() - 1]);
        assert(c.last().0 != c[i].0);
        lemma_counter_update(c.drop_last(), i, v, kind);
    }
}

/// A counter always fits in `usize`.
pub proof fn lemma_counter_bound(c: Seq<(Seq<char>, usize)>, kind: Seq<char>)
    ensures
        counter_of(c, kind) <= usize::MAX,
    decreases c.len(),
{
    if c.len() > 0 {
        lemma_counter_bound(c.drop_last(), kind);
    }
}

pub proof fn lemma_counter_absent(c: Seq<(Seq<char>, usize)>, kind: Seq<char>)
    requires
        forall|i: int| 0 <= i < c.len() ==> (#[trigger] c[i]).0 != kind,
    ensures
        counter_of(c, kind) == 0,
    decreases c.len(),
{
    if c.len() > 0 {
        assert(c[c.len() - 1].0 != kind);
        lemma_counter_absent(c.drop_last(), kind);
    }
}

pub proof fn lemma_counter_at(c: Seq<(Seq<char>, usize)>, i: int)
    requires
        counters_unique(c),
        0 <= i < c.len(),
    ensures
        counter_of(c, c[i].0) == c[i].1,
    decreases c.len(),
{
    if i < c.len() - 1 {
        assert(c[c.len() - 1].0 != c[i].0);
        assert(c.drop_last()[i] == c[i]);
        lemma_counter_at(c.drop_last(), i);
    }
}

/// The latest id used for one kind.
#[derive(Debug, Clone, Copy, Default, PartialEq, Eq)]
pub struct Kind {
    pub latest_id: usize,
}

impl Kind {
    pub fn latest_id(&self) -> (r: usize)
        ensures
            r == self.latest_id,
    {
        self.latest_id
    }
}

/// For each kind, the latest id used, so that ids only ever grow and are
/// never reused.
#[derive(Debug, Clone)]
pub struct Index {
    kinds: Vec<(String, Kind)>,
}

/// The on-disk form of the index: `kinds.<kind>.latest_id`.
#[derive(Debug, Clone)]
pub struct TomlIndex {
    pub kinds: Vec<(String, TomlKind)>,
}

/// The on-disk form of one kind's entry.
#[derive(Debug, Clone, Copy, PartialEq, Eq)]
pub struct TomlKind {
    pub latest_id: usize,
}

impl View for Index {
    type V = Seq<(Seq<char>, usize)>;

    closed spec fn view(&self) -> Seq<(Seq<char>, usize)> {
        self.kinds@.map_values(|e: (String, Kind)| (e.0@, e.1.latest_id))
    }
}

/// The entries of an on-disk index.
pub open spec fn toml_entries(t: TomlIndex) -> Seq<(Seq<char>, usize)> {
    t.kinds@.map_values(|e: (String, TomlKind)| (e.0@, e.1.latest_id))
}

/// The largest id that `entries` give for `kind` (zero if none).
pub open spec fn max_for(entries: Seq<(Seq<char>, usize)>, kind: Seq<char>) -> nat
    decreases entries.len(),
{
    if entries.len() == 0 {
        0
    } else {
        let prev = max_for(entries.drop_last(), kind);
        if entries.last().0 == kind && entries.last().1 > prev {
            entries.last().1 as nat
        } else {
            prev
        }
    }
}

impl Index {
    /// One entry per kind.
    pub open spec fn wf(&self) -> bool {
        counters_unique(self@)
    }

    /// An index with no kinds.
    pub fn new() -> (r: Index)
        ensures
            r.wf(),
            r@.len() == 0,
    {
        let r = Index { kinds: Vec::new() };
        assert(r@ =~= Seq::<(Seq<char>, usize)>::empty());
        r
    }

    /// The position of the entry for `kind`.
    fn find(&self, kind: &String) -> (r: Option<usize>)
        ensures
            r is None ==> forall|i: int| 0 <= i < self@.len() ==> (#[trigger] self@[i]).0 != kind@,
            r matches Some(i) ==> i < self@.len() && self@[i as int].0 == kind@,
    {
        let mut i: usize = 0;
        while i < self.kinds.len()
            invariant
                i <= self.kinds@.len(),
                forall|k: int| 0 <= k < i ==> (#[trigger] self@[k]).0 != kind@,
            decreases self.kinds@.len() - i,
        {
            if self.kinds[i].0 == *kind {
                return Some(i);
            }
            assert(self@[i as int].0 == self.kinds@[i as int].0@);
            i = i + 1;
        }
        None
    }

    /// The latest id used for `kind` (zero if none).
    pub fn latest_id(&self, kind: &String) -> (r: usize)
        requires
            self.wf(),
        ensures
            r == counter_of(self@, kind@),
    {
        match self.find(kind) {
            Some(i) => {
                proof {
                    lemma_counter_at(self@, i as int);
                }
                self.kinds[i].1.latest_id
            },
            None => {
                proof {
                    lemma_counter_absent(self@, kind@);
                }
                0
            },
        }
    }

    /// Sets the entry for `kind` to `id`.
    fn set(&mut self, kind: &String, id: usize)
        requires
            old(self).wf(),
        ensures
            final(self).wf(),
            forall|k: Seq<char>|
                #![trigger counter_of(final(self)@, k)]
                counter_of(final(self)@, k) == if k == kind@ {
                    id as nat
                } else {
                    counter_of(old(self)@, k)
                },
    {
        match self.find(kind) {
            Some(i) => {
                let mut entry = (kind.clone(), Kind { latest_id: id });
                self.kinds.set_and_swap(i, &mut entry);
                proof {
                    assert(self@ =~= old(self)@.update(i as int, (old(self)@[i as int].0, id)));
                    assert forall|k: Seq<char>| true implies #[trigger] counter_of(self@, k) == (if k
                        == kind@ {
                        id as nat
                    } else {
                        counter_of(old(self)@, k)
                    }) by {
                        lemma_counter_update(old(self)@, i as int, id, k);
                    }
                    assert forall|a: int, b: int| 0 <= a < b < self@.len() implies (#[trigger] self@[a]).0
                        != (#[trigger] self@[b]).0 by {
                        assert(old(self)@[a].0 != old(self)@[b].0);
                    }
                }
            },
            None => {
                self.kinds.push((kind.clone(), Kind { latest_id: id }));
                proof {
                    assert(self@ =~= old(self)@.push((kind@, id)));
                    lemma_counter_absent(old(self)@, kind@);
                    assert(self@.drop_last() =~= old(self)@);
                    assert forall|a: int, b: int| 0 <= a < b < self@.len() implies (#[trigger] self@[a]).0
                        != (#[trigger] self@[b]).0 by {
                        if b == self@.len() - 1 {
                            assert(old(self)@[a].0 != kind@);
                        } else {
                            assert(old(self)@[a].0 != old(self)@[b].0);
                        }
                    }
                }
            },
        }
    }

    /// Raises the entry for `kind` to at least `id`.
    pub fn raise(&mut self, kind: &String, id: usize)
        requires
            old(self).wf(),
        ensures
            final(self).wf(),
            forall|k: Seq<char>|
                #![trigger counter_of(final(self)@, k)]
                counter_of(final(self)@, k) == if k == kind@ {
                    if counter_of(old(self)@, k) < id {
                        id as nat
                    } else {
                        counter_of(old(self)@, k)
                    }
                } else {
                    counter_of(old(self)@, k)
                },
    {
        let cur = self.latest_id(kind);
        if cur < id {
            self.set(kind, id);
        }
    }

    /// Advances the counter of `kind` and returns the new id; `None`,
    /// changing nothing, when the counter is at its maximum.
    pub fn bump_index(&mut self, kind: String) -> (r: Option<usize>)
        requires
            old(self).wf(),
        ensures
            final(self).wf(),
            r is None <==> counter_of(old(self)@, kind@) == usize::MAX,
            r is None ==> final(self)@ == old(self)@,
            r matches Some(n) ==> n == counter_of(old(self)@, kind@) + 1,
            r is Some ==> forall|k: Seq<char>|
                #![trigger counter_of(final(self)@, k)]
                counter_of(final(self)@, k) == if k == kind@ {
                    counter_of(old(self)@, k) + 1
                } else {
                    counter_of(old(self)@, k)
                },
    {
        proof {
            lemma_counter_bound(self@, kind@);
        }
        let cur = self.latest_id(&kind);
        if cur == usize::MAX {
            return None;
        }
        self.set(&kind, cur + 1);
        Some(cur + 1)
    }

    /// Builds an index from the entries of an on-disk index; where a kind
    /// appears more than once the largest id wins.
    pub fn load(toml: TomlIndex) -> (r: Index)
        ensures
            r.wf(),
            forall|k: Seq<char>| #[trigger] counter_of(r@, k) == max_for(toml_entries(toml), k),
    {
        let mut r = Index::new();
        let mut i: usize = 0;
        assert(toml_entries(toml).take(0) =~= Seq::<(Seq<char>, usize)>::empty());
        while i < toml.kinds.len()
            invariant
                r.wf(),
                i <= toml.kinds@.len(),
                forall|k: Seq<char>| #[trigger] counter_of(r@, k) == max_for(toml_entries(toml).take(i as int), k),
            decreases toml.kinds@.len() - i,
        {
            r.raise(&toml.kinds[i].0, toml.kinds[i].1.latest_id);
            i = i + 1;
            proof {
                let e = toml_entries(toml);
                assert(e.take(i as int).drop_last() =~= e.take(i - 1));
                assert(e.take(i as int).last() == e[i - 1]);
            }
        }
        assert(toml_entries(toml).take(toml.kinds@.len() as int) =~= toml_entries(toml));
        r
    }

    /// The entries to write to the on-disk index, one per kind, in order.
    pub fn save(&self) -> (r: TomlIndex)
        ensures
            toml_entries(r) == self@,
    {
        let mut kinds: Vec<(String, TomlKind)> = Vec::new();
        let mut i: usize = 0;
        while i < self.kinds.len()
            invariant
                i <= self.kinds@.len(),
                kinds@.map_values(|e: (String, TomlKind)| (e.0@, e.1.latest_id)) == self@.take(i as int),
            decreases self.kinds@.len() - i,
        {
            let entry = (self.kinds[i].0.clone(), TomlKind { latest_id: self.kinds[i].1.latest_id });
            let ghost before = kinds@;
            assert((entry.0@, entry.1.latest_id) == self@[i as int]);
            kinds.push(entry);
            assert(kinds@.map_values(|e: (String, TomlKind)| (e.0@, e.1.latest_id)) =~= before.map_values(
                |e: (String, TomlKind)| (e.0@, e.1.latest_id),
            ).push(self@[i as int]));
            assert(self@.take(i + 1) =~= self@.take(i as int).push(self@[i as int]));
            i = i + 1;
            assert(kinds@.map_values(|e: (String, TomlKind)| (e.0@, e.1.latest_id)) =~= self@.take(i as int));
        }
        assert(self@.take(self.kinds@.len() as int) =~= self@);
        TomlIndex { kinds }
    }
}

} // verus!
