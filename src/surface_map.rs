use vstd::prelude::*;

verus! {

/// One registered path and the identity it resolves to.
#[derive(Clone, Debug)]
pub struct SurfaceEntry {
    pub path: String,
    pub id: usize,
}

/// Map from path to identity, kept in order of first registration.
/// Registering a path that is already present replaces its identity.
pub struct SurfaceMap {
    entries: Vec<SurfaceEntry>,
}

/// The map that a sequence of registrations builds, later ones winning.
pub open spec fn entries_map(es: Seq<SurfaceEntry>) -> Map<Seq<char>, usize>
    decreases es.len(),
{
    if es.len() == 0 {
        Map::empty()
    } else {
        entries_map(es.drop_last()).insert(es.last().path@, es.last().id)
    }
}

pub open spec fn keys_distinct(es: Seq<SurfaceEntry>) -> bool {
    forall|i: int, j: int| 0 <= i < j < es.len() ==> es[i].path@ != es[j].path@
}

proof fn lemma_entries_map_keys(es: Seq<SurfaceEntry>)
    ensures
        forall|k: Seq<char>|
            entries_map(es).contains_key(k) <==> exists|i: int|
                0 <= i < es.len() && es[i].path@ == k,
    decreases es.len(),
{
    if es.len() > 0 {
        let pre = es.drop_last();
        lemma_entries_map_keys(pre);
        assert forall|k: Seq<char>|
            entries_map(es).contains_key(k) <==> exists|i: int|
                0 <= i < es.len() && es[i].path@ == k by {
            if entries_map(es).contains_key(k) {
                if k == es.last().path@ {
                    assert(es[es.len() - 1].path@ == k);
                } else {
                    assert(entries_map(pre).contains_key(k));
                    let i = choose|i: int| 0 <= i < pre.len() && pre[i].path@ == k;
                    assert(pre[i] == es[i]);
                }
            }
            if exists|i: int| 0 <= i < es.len() && es[i].path@ == k {
                let i = choose|i: int| 0 <= i < es.len() && es[i].path@ == k;
                if i < es.len() - 1 {
                    assert(pre[i] == es[i]);
                    assert(entries_map(pre).contains_key(k));
                }
            }
        }
    }
}

proof fn lemma_entries_map_at(es: Seq<SurfaceEntry>, i: int)
    requires
        keys_distinct(es),
        0 <= i < es.len(),
    ensures
        entries_map(es).contains_key(es[i].path@),
        entries_map(es)[es[i].path@] == es[i].id,
    decreases es.len(),
{
    if i < es.len() - 1 {
        lemma_entries_map_at(es.drop_last(), i);
    }
}

proof fn lemma_entries_map_update(es: Seq<SurfaceEntry>, i: int, e: SurfaceEntry)
    requires
        keys_distinct(es),
        0 <= i < es.len(),
        es[i].path@ == e.path@,
    ensures
        entries_map(es.update(i, e)) == entries_map(es).insert(e.path@, e.id),
    decreases es.len(),
{
    let es2 = es.update(i, e);
    if i == es.len() - 1 {
        assert(es2.drop_last() =~= es.drop_last());
        assert(entries_map(es2) =~= entries_map(es).insert(e.path@, e.id));
    } else {
        assert(es2.drop_last() =~= es.drop_last().update(i, e));
        lemma_entries_map_update(es.drop_last(), i, e);
        assert(entries_map(es2) =~= entries_map(es).insert(e.path@, e.id));
    }
}

impl SurfaceMap {
    pub closed spec fn wf(&self) -> bool {
        keys_distinct(self.entries@)
    }

    /// The paths and identities this map holds.
    pub closed spec fn view(&self) -> Map<Seq<char>, usize> {
        entries_map(self.entries@)
    }

    /// Number of entries.
    pub closed spec fn spec_len(&self) -> nat {
        self.entries@.len()
    }

    /// Path of the entry at position `i`.
    pub closed spec fn spec_path_at(&self, i: int) -> Seq<char> {
        self.entries@[i].path@
    }

    /// Identity of the entry at position `i`.
    pub closed spec fn spec_id_at(&self, i: int) -> usize {
        self.entries@[i].id
    }

    /// The positions enumerate the map: each key stands at exactly one
    /// position and the identity there is the one the map gives.
    pub proof fn lemma_positions(&self)
        requires
            self.wf(),
        ensures
            self@.dom().finite(),
            self@.dom().len() == self.spec_len(),
            forall|k: Seq<char>|
                #![trigger self@.contains_key(k)]
                self@.contains_key(k) <==> exists|i: int|
                    0 <= i < self.spec_len() && self.spec_path_at(i) == k,
            forall|i: int|
                #![trigger self.spec_path_at(i)]
                0 <= i < self.spec_len() ==> self@.contains_key(self.spec_path_at(i))
                    && self@[self.spec_path_at(i)] == self.spec_id_at(i),
            forall|i: int, j: int|
                0 <= i < j < self.spec_len() ==> self.spec_path_at(i) != self.spec_path_at(j),
    {
        lemma_entries_map_keys(self.entries@);
        assert forall|k: Seq<char>|
            #![trigger self@.contains_key(k)]
            self@.contains_key(k) <==> exists|i: int|
                0 <= i < self.spec_len() && self.spec_path_at(i) == k by {
            if self@.contains_key(k) {
                let i = choose|i: int| 0 <= i < self.entries@.len() && self.entries@[i].path@ == k;
                assert(self.spec_path_at(i) == k);
            }
        }
        assert forall|i: int|
            #![trigger self.spec_path_at(i)]
            0 <= i < self.spec_len() implies self@.contains_key(self.spec_path_at(i))
                && self@[self.spec_path_at(i)] == self.spec_id_at(i) by {
            lemma_entries_map_at(self.entries@, i);
        }
        self.lemma_dom_len();
    }

    proof fn lemma_dom_len(&self)
        requires
            self.wf(),
        ensures
            self@.dom().finite(),
            self@.dom().len() == self.spec_len(),
    {
        lemma_dom_len_of(self.entries@);
    }

    pub fn new() -> (r: SurfaceMap)
        ensures
            r.wf(),
            r@ == Map::<Seq<char>, usize>::empty(),
            r.spec_len() == 0,
    {
        SurfaceMap { entries: Vec::new() }
    }

    /// Registers `path` as resolving to `id`, replacing any identity that
    /// `path` had before.
    pub fn insert(&mut self, path: String, id: usize)
        requires
            old(self).wf(),
        ensures
            final(self).wf(),
            final(self)@ == old(self)@.insert(path@, id),
    {
        let ghost p = path@;
        let mut i: usize = 0;
        while i < self.entries.len()
            invariant
                0 <= i <= self.entries@.len(),
                self.entries@ == old(self).entries@,
                keys_distinct(self.entries@),
                forall|j: int| 0 <= j < i ==> self.entries@[j].path@ != p,
                path@ == p,
            decreases self.entries@.len() - i,
        {
            if self.entries[i].path == path {
                let e = SurfaceEntry { path, id };
                proof {
                    lemma_entries_map_update(self.entries@, i as int, e);
                }
                self.entries.set(i, e);
                return;
            }
            i = i + 1;
        }
        let e = SurfaceEntry { path, id };
        self.entries.push(e);
        proof {
            assert(self.entries@.drop_last() =~= old(self).entries@);
        }
    }

    /// Identity registered under `path`, if any.
    pub fn get(&self, path: &String) -> (r: Option<usize>)
        requires
            self.wf(),
        ensures
            r == (if self@.contains_key(path@) {
                Some(self@[path@])
            } else {
                None::<usize>
            }),
    {
        proof {
            lemma_entries_map_keys(self.entries@);
        }
        let mut i: usize = 0;
        while i < self.entries.len()
            invariant
                0 <= i <= self.entries@.len(),
                keys_distinct(self.entries@),
                forall|j: int| 0 <= j < i ==> self.entries@[j].path@ != path@,
            decreases self.entries@.len() - i,
        {
            if self.entries[i].path == *path {
                proof {
                    lemma_entries_map_at(self.entries@, i as int);
                }
                return Some(self.entries[i].id);
            }
            i = i + 1;
        }
        None
    }

    pub fn len(&self) -> (r: usize)
        ensures
            r == self.spec_len(),
    {
        self.entries.len()
    }

    pub fn path_at(&self, i: usize) -> (r: &String)
        requires
            i < self.spec_len(),
        ensures
            r@ == self.spec_path_at(i as int),
    {
        &self.entries[i].path
    }

    pub fn id_at(&self, i: usize) -> (r: usize)
        requires
            i < self.spec_len(),
        ensures
            r == self.spec_id_at(i as int),
    {
        self.entries[i].id
    }
}

proof fn lemma_dom_len_of(es: Seq<SurfaceEntry>)
    requires
        keys_distinct(es),
    ensures
        entries_map(es).dom().finite(),
        entries_map(es).dom().len() == es.len(),
    decreases es.len(),
{
    if es.len() > 0 {
        let pre = es.drop_last();
        lemma_dom_len_of(pre);
        lemma_entries_map_keys(pre);
        assert(!entries_map(pre).contains_key(es.last().path@)) by {
            if entries_map(pre).contains_key(es.last().path@) {
                let i = choose|i: int| 0 <= i < pre.len() && pre[i].path@ == es.last().path@;
                assert(es[i].path@ == es[es.len() - 1].path@);
            }
        }
        assert(entries_map(es).dom() =~= entries_map(pre).dom().insert(es.last().path@));
    }
}

} // verus!
