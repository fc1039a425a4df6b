//! Manifests: the last known mapping from a path (relative to a save's root)
//! to the content hash of the file stored at that path.

use vstd::prelude::*;

verus! {

/// One path of a manifest with its content hash.
#[derive(Clone, Debug)]
pub struct ManifestEntry {
    pub path: String,
    pub hash: String,
}

/// A mapping from relative path to content hash, held as a list of entries
/// whose paths are distinct.
#[derive(Clone, Debug)]
pub struct Manifest {
    pub entries: Vec<ManifestEntry>,
}

/// The mapping that a list of entries denotes; a later entry for a path
/// overrides an earlier one.
pub open spec fn entries_map(s: Seq<ManifestEntry>) -> Map<Seq<char>, Seq<char>>
    decreases s.len(),
{
    if s.len() == 0 {
        Map::empty()
    } else {
        entries_map(s.drop_last()).insert(s.last().path@, s.last().hash@)
    }
}

/// No two entries share a path.
pub open spec fn distinct_paths(s: Seq<ManifestEntry>) -> bool {
    forall|i: int, j: int| 0 <= i < j < s.len() ==> s[i].path@ != s[j].path@
}

impl View for Manifest {
    type V = Map<Seq<char>, Seq<char>>;

    open spec fn view(&self) -> Map<Seq<char>, Seq<char>> {
        entries_map(self.entries@)
    }
}

pub proof fn lemma_entries_map_dom(s: Seq<ManifestEntry>, p: Seq<char>)
    ensures
        entries_map(s).contains_key(p) <==> exists|i: int| 0 <= i < s.len() && s[i].path@ == p,
    decreases s.len(),
{
    if s.len() > 0 {
        lemma_entries_map_dom(s.drop_last(), p);
        if entries_map(s.drop_last()).contains_key(p) {
            let i = choose|i: int| 0 <= i < s.drop_last().len() && s.drop_last()[i].path@ == p;
            assert(s[i].path@ == p);
        }
        if exists|i: int| 0 <= i < s.len() && s[i].path@ == p {
            let i = choose|i: int| 0 <= i < s.len() && s[i].path@ == p;
            if i < s.len() - 1 {
                assert(s.drop_last()[i].path@ == p);
            }
        }
    }
}

pub proof fn lemma_entries_map_index(s: Seq<ManifestEntry>, i: int)
    requires
        distinct_paths(s),
        0 <= i < s.len(),
    ensures
        entries_map(s).contains_key(s[i].path@),
        entries_map(s)[s[i].path@] == s[i].hash@,
    decreases s.len(),
{
    if i < s.len() - 1 {
        assert(distinct_paths(s.drop_last()));
        lemma_entries_map_index(s.drop_last(), i);
        assert(s.drop_last()[i] == s[i]);
    }
}

pub proof fn lemma_entries_map_update(s: Seq<ManifestEntry>, i: int, e: ManifestEntry)
    requires
        distinct_paths(s),
        0 <= i < s.len(),
        e.path@ == s[i].path@,
    ensures
        distinct_paths(s.update(i, e)),
        entries_map(s.update(i, e)) == entries_map(s).insert(e.path@, e.hash@),
    decreases s.len(),
{
    let t = s.update(i, e);
    assert(distinct_paths(t)) by {
        assert forall|a: int, b: int| 0 <= a < b < t.len() implies t[a].path@ != t[b].path@ by {
            assert(s[a].path@ != s[b].path@);
        }
    }
    if i == s.len() - 1 {
        assert(t.drop_last() =~= s.drop_last());
    } else {
        assert(distinct_paths(s.drop_last()));
        lemma_entries_map_update(s.drop_last(), i, e);
        assert(t.drop_last() =~= s.drop_last().update(i, e));
        lemma_entries_map_dom(s.drop_last(), e.path@);
        assert(s.last().path@ != e.path@) by {
            assert(s[s.len() - 1].path@ != s[i].path@);
        }
        assert(entries_map(t) =~= entries_map(s).insert(e.path@, e.hash@));
    }
}

impl Manifest {
    /// Its paths are distinct.
    pub open spec fn wf(&self) -> bool {
        distinct_paths(self.entries@)
    }

    /// The manifest with no entry.
    pub fn new() -> (r: Manifest)
        ensures
            r.wf(),
            r@ == Map::<Seq<char>, Seq<char>>::empty(),
    {
        Manifest { entries: Vec::new() }
    }

    /// Number of paths it maps.
    pub fn len(&self) -> (r: usize)
        requires
            self.wf(),
        ensures
            r == self@.len(),
    {
        proof {
            self.lemma_dom_len();
        }
        self.entries.len()
    }

    proof fn lemma_dom_len(&self)
        requires
            self.wf(),
        ensures
            self@.dom().finite(),
            self@.len() == self.entries.len(),
    {
        lemma_dom_len_seq(self.entries@);
    }

    /// Where the entry for `path` stands, if there is one.
    pub fn find(&self, path: &String) -> (r: Option<usize>)
        requires
            self.wf(),
        ensures
            r is None ==> !self@.contains_key(path@),
            r matches Some(i) ==> i < self.entries.len() && self.entries@[i as int].path@ == path@
                && self@.contains_key(path@) && self@[path@] == self.entries@[i as int].hash@,
    {
        let mut i: usize = 0;
        while i < self.entries.len()
            invariant
                self.wf(),
                i <= self.entries.len(),
                forall|k: int| 0 <= k < i ==> self.entries@[k].path@ != path@,
            decreases self.entries.len() - i,
        {
            if self.entries[i].path == *path {
                proof {
                    lemma_entries_map_index(self.entries@, i as int);
                }
                return Some(i);
            }
            i = i + 1;
        }
        proof {
            lemma_entries_map_dom(self.entries@, path@);
        }
        None
    }

    /// The hash recorded for `path`.
    pub fn get(&self, path: &String) -> (r: Option<String>)
        requires
            self.wf(),
        ensures
            r is None <==> !self@.contains_key(path@),
            r matches Some(h) ==> h@ == self@[path@],
    {
        match self.find(path) {
            Some(i) => Some(self.entries[i].hash.clone()),
            None => None,
        }
    }

    /// Records `hash` for `path`, replacing what was recorded for it.
    pub fn insert(&mut self, path: String, hash: String)
        requires
            old(self).wf(),
        ensures
            final(self).wf(),
            final(self)@ == old(self)@.insert(path@, hash@),
    {
        match self.find(&path) {
            Some(i) => {
                let e = ManifestEntry { path, hash };
                proof {
                    lemma_entries_map_update(self.entries@, i as int, e);
                }
                self.entries.set(i, e);
            },
            None => {
                let e = ManifestEntry { path, hash };
                proof {
                    lemma_entries_map_dom(self.entries@, e.path@);
                    assert(self.entries@.push(e).drop_last() =~= self.entries@);
                }
                self.entries.push(e);
            },
        }
    }

    /// An equal manifest.
    pub fn duplicate(&self) -> (r: Manifest)
        requires
            self.wf(),
        ensures
            r.wf(),
            r@ == self@,
    {
        let mut entries: Vec<ManifestEntry> = Vec::new();
        let mut i: usize = 0;
        while i < self.entries.len()
            invariant
                i <= self.entries.len(),
                entries@ == self.entries@.subrange(0, i as int),
            decreases self.entries.len() - i,
        {
            let e = ManifestEntry {
                path: self.entries[i].path.clone(),
                hash: self.entries[i].hash.clone(),
            };
            entries.push(e);
            i = i + 1;
            proof {
                assert(entries@ =~= self.entries@.subrange(0, i as int));
            }
        }
        proof {
            assert(entries@ =~= self.entries@);
        }
        Manifest { entries }
    }

    /// Whether some path is recorded with `hash`.
    pub fn contains_hash(&self, hash: &String) -> (r: bool)
        requires
            self.wf(),
        ensures
            r == exists|p: Seq<char>| self@.contains_key(p) && #[trigger] self@[p] == hash@,
    {
        let mut i: usize = 0;
        while i < self.entries.len()
            invariant
                self.wf(),
                i <= self.entries.len(),
                forall|k: int| 0 <= k < i ==> self.entries@[k].hash@ != hash@,
            decreases self.entries.len() - i,
        {
            if self.entries[i].hash == *hash {
                proof {
                    lemma_entries_map_index(self.entries@, i as int);
                    let p = self.entries@[i as int].path@;
                    assert(self@.contains_key(p) && self@[p] == hash@);
                }
                return true;
            }
            i = i + 1;
        }
        proof {
            assert forall|p: Seq<char>| self@.contains_key(p) implies #[trigger] self@[p] != hash@ by {
                lemma_entries_map_dom(self.entries@, p);
                let k = choose|k: int| 0 <= k < self.entries.len() && self.entries@[k].path@ == p;
                lemma_entries_map_index(self.entries@, k);
            }
        }
        false
    }
}

proof fn lemma_dom_len_seq(s: Seq<ManifestEntry>)
    requires
        distinct_paths(s),
    ensures
        entries_map(s).dom().finite(),
        entries_map(s).len() == s.len(),
    decreases s.len(),
{
    if s.len() > 0 {
        assert(distinct_paths(s.drop_last()));
        lemma_dom_len_seq(s.drop_last());
        lemma_entries_map_dom(s.drop_last(), s.last().path@);
        assert(!entries_map(s.drop_last()).contains_key(s.last().path@)) by {
            if entries_map(s.drop_last()).contains_key(s.last().path@) {
                let i = choose|i: int| 0 <= i < s.drop_last().len() && s.drop_last()[i].path@ == s.last().path@;
                assert(s[i].path@ == s[s.len() - 1].path@);
            }
        }
    } else {
        assert(entries_map(s) =~= Map::empty());
    }
}

} // verus!
