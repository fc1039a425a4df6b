//! Backup versions and the capture of a tree against the last manifest.

use vstd::prelude::*;

use crate::digest::{content_hash, hash};
use crate::manifest::{entries_map, Manifest, ManifestEntry};
use crate::tree::{
    changed_files, changed_part, differs, lemma_capture_step, lemma_prefix_drop_last,
    lemma_snapshot_dom, snapshot_of, tree_wf, FileEntry,
};

verus! {

/// What a version's archive holds.
#[derive(Clone, Copy, Debug, PartialEq, Eq, Structural)]
pub enum BackupType {
    /// Every file of the tree.
    Full,
    /// The files that changed since the previous version.
    FileDelta,
    /// Changed data within files; not produced by `capture`.
    DataDelta,
}

/// Whether a capture wrote a new version.
#[derive(Clone, Copy, Debug, PartialEq, Eq, Structural)]
pub enum BackupOutcome {
    Created,
    Unchanged,
}

/// One backup version: the archive `name`, the tree it was taken of, and the
/// content hash of each file that its archive stores.
#[derive(Debug)]
pub struct Version {
    pub name: String,
    pub target: String,
    pub backup_type: BackupType,
    pub file_hash: Manifest,
}

/// The decision of one capture.
#[derive(Debug)]
pub struct CapturePlan {
    pub outcome: BackupOutcome,
    /// Indices, in tree order, of the files that go into the new archive.
    pub archived: Vec<usize>,
    pub version: Version,
    /// The manifest to persist once the archive is written.
    pub manifest: Manifest,
}

/// The files of `files` at the indices `idx`, in that order.
pub open spec fn indexed(files: Seq<FileEntry>, idx: Seq<usize>) -> Seq<FileEntry> {
    idx.map_values(|k: usize| files[k as int])
}

/// One pass over the tree: the files that differ from `prev`, their hashes,
/// and `prev` updated with them.
fn scan_changes(prev: &Manifest, files: &Vec<FileEntry>) -> (r: (Vec<usize>, Manifest, Manifest))
    requires
        prev.wf(),
        tree_wf(files@),
    ensures
        indexed(files@, r.0@) == changed_files(files@, prev@),
        forall|j: int| 0 <= j < r.0.len() ==> r.0@[j] < files.len(),
        r.1.wf(),
        r.1@ == changed_part(snapshot_of(files@), prev@),
        r.2.wf(),
        r.2@ == prev@.union_prefer_right(snapshot_of(files@)),
{
    let mut archived: Vec<usize> = Vec::new();
    let mut delta = Manifest::new();
    let mut next = prev.duplicate();
    let mut i: usize = 0;
    proof {
        assert(files@.subrange(0, 0) =~= Seq::<FileEntry>::empty());
        assert(indexed(files@, archived@) =~= Seq::<FileEntry>::empty());
        assert(delta@ =~= changed_part(snapshot_of(Seq::<FileEntry>::empty()), prev@));
        assert(next@ =~= prev@.union_prefer_right(snapshot_of(Seq::<FileEntry>::empty())));
    }
    while i < files.len()
        invariant
            prev.wf(),
            tree_wf(files@),
            i <= files.len(),
            indexed(files@, archived@) == changed_files(files@.subrange(0, i as int), prev@),
            forall|j: int| 0 <= j < archived.len() ==> archived@[j] < files.len(),
            delta.wf(),
            delta@ == changed_part(snapshot_of(files@.subrange(0, i as int)), prev@),
            next.wf(),
            next@ == prev@.union_prefer_right(snapshot_of(files@.subrange(0, i as int))),
        decreases files.len() - i,
    {
        let ghost g = files@.subrange(0, i as int);
        let ghost f = files@[i as int];
        proof {
            lemma_prefix_drop_last(files@, i as int);
            assert(files@.subrange(0, i + 1) =~= g.push(f));
            lemma_snapshot_dom(g, f.path@);
            assert(!snapshot_of(g).contains_key(f.path@)) by {
                if snapshot_of(g).contains_key(f.path@) {
                    let k = choose|k: int| 0 <= k < g.len() && g[k].path@ == f.path@;
                    assert(files@[k].path@ == files@[i as int].path@);
                }
            }
            lemma_capture_step(g, f, prev@);
        }
        let h = hash(files[i].content.as_slice());
        let same = match prev.get(&files[i].path) {
            Some(o) => o == h,
            None => false,
        };
        if !same {
            archived.push(i);
            delta.insert(files[i].path.clone(), h.clone());
            next.insert(files[i].path.clone(), h);
            proof {
                assert(indexed(files@, archived@) =~= indexed(files@, archived@.drop_last()).push(f));
            }
        }
        i = i + 1;
    }
    proof {
        assert(files@.subrange(0, files.len() as int) =~= files@);
    }
    (archived, delta, next)
}

impl Version {
    /// The full version of the tree `files`: it stores every file.
    pub fn create_full(name: String, target: String, files: &Vec<FileEntry>) -> (r: Version)
        requires
            tree_wf(files@),
        ensures
            r.name == name,
            r.target == target,
            r.backup_type == BackupType::Full,
            r.file_hash.wf(),
            r.file_hash@ == snapshot_of(files@),
    {
        let (_, delta, _) = scan_changes(&Manifest::new(), files);
        proof {
            assert(delta@ =~= snapshot_of(files@));
        }
        Version { name, target, backup_type: BackupType::Full, file_hash: delta }
    }

    /// The incremental version of the tree `files` after the state `prev`: it
    /// stores the files whose hash differs from, or is absent in, `prev`.
    pub fn create_version(prev: &Manifest, name: String, target: String, files: &Vec<FileEntry>) -> (r: Version)
        requires
            prev.wf(),
            tree_wf(files@),
        ensures
            r.name == name,
            r.target == target,
            r.backup_type == BackupType::FileDelta,
            r.file_hash.wf(),
            r.file_hash@ == changed_part(snapshot_of(files@), prev@),
    {
        let (_, delta, _) = scan_changes(prev, files);
        Version { name, target, backup_type: BackupType::FileDelta, file_hash: delta }
    }

    /// The tree state `state` with this version unpacked over it: a path
    /// that both have takes this version's content.
    pub fn restore(&self, state: &Manifest) -> (r: Manifest)
        requires
            self.file_hash.wf(),
            state.wf(),
        ensures
            r.wf(),
            r@ == state@.union_prefer_right(self.file_hash@),
    {
        let mut acc = state.duplicate();
        let mut i: usize = 0;
        let ghost s = self.file_hash.entries@;
        proof {
            assert(s.subrange(0, 0) =~= Seq::<ManifestEntry>::empty());
            assert(acc@ =~= state@.union_prefer_right(entries_map(s.subrange(0, 0))));
        }
        while i < self.file_hash.entries.len()
            invariant
                s == self.file_hash.entries@,
                i <= s.len(),
                acc.wf(),
                acc@ == state@.union_prefer_right(entries_map(s.subrange(0, i as int))),
            decreases s.len() - i,
        {
            proof {
                lemma_prefix_drop_last(s, i as int);
                let e = s[i as int];
                assert(state@.union_prefer_right(entries_map(s.subrange(0, i + 1)))
                    =~= state@.union_prefer_right(entries_map(s.subrange(0, i as int))).insert(e.path@, e.hash@));
            }
            acc.insert(self.file_hash.entries[i].path.clone(), self.file_hash.entries[i].hash.clone());
            i = i + 1;
        }
        proof {
            assert(s.subrange(0, s.len() as int) =~= s);
        }
        acc
    }

    /// This version replayed over the earlier version `prev`: a path that both
    /// store takes this version's content.
    pub fn merge(self, prev: &Version) -> (r: Version)
        requires
            self.file_hash.wf(),
            prev.file_hash.wf(),
        ensures
            r.name == self.name,
            r.target == self.target,
            r.backup_type == prev.backup_type,
            r.file_hash.wf(),
            r.file_hash@ == prev.file_hash@.union_prefer_right(self.file_hash@),
    {
        let file_hash = self.restore(&prev.file_hash);
        Version { name: self.name, target: self.target, backup_type: prev.backup_type, file_hash }
    }
}

/// `r` is what capturing the tree `files` against the manifest `previous`
/// (none before the first capture) decides, for a version named `name` of
/// the tree at `target`.
pub open spec fn captures(
    previous: Option<Map<Seq<char>, Seq<char>>>,
    files: Seq<FileEntry>,
    name: Seq<char>,
    target: Seq<char>,
    r: CapturePlan,
) -> bool {
    let prev = match previous {
        Some(m) => m,
        None => Map::empty(),
    };
    &&& indexed(files, r.archived@) == changed_files(files, prev)
    &&& forall|j: int| 0 <= j < r.archived.len() ==> r.archived@[j] < files.len()
    &&& r.version.name@ == name
    &&& r.version.target@ == target
    &&& r.version.backup_type == (if previous is Some { BackupType::FileDelta } else { BackupType::Full })
    &&& r.version.file_hash.wf()
    &&& r.version.file_hash@ == changed_part(snapshot_of(files), prev)
    &&& r.manifest.wf()
    &&& r.manifest@ == prev.union_prefer_right(snapshot_of(files))
    &&& (r.outcome == BackupOutcome::Unchanged <==> (previous is Some && changed_files(files, prev).len() == 0))
}

/// Captures the tree `files` into a version named `name`. Without a previous
/// manifest the version is full and the outcome is `Created`. Otherwise it
/// stores the files whose hash differs from (or is absent in) the manifest,
/// and the outcome is `Unchanged` exactly when there is none; the manifest
/// then stays as it was.
pub fn capture(previous: Option<&Manifest>, name: String, target: String, files: &Vec<FileEntry>) -> (r: CapturePlan)
    requires
        previous matches Some(m) ==> m.wf(),
        tree_wf(files@),
    ensures
        captures(
            match previous {
                Some(m) => Some(m@),
                None => None,
            },
            files@,
            name@,
            target@,
            r,
        ),
{
    match previous {
        None => {
            let (archived, delta, next) = scan_changes(&Manifest::new(), files);
            let version = Version { name, target, backup_type: BackupType::Full, file_hash: delta };
            CapturePlan { outcome: BackupOutcome::Created, archived, version, manifest: next }
        },
        Some(m) => {
            let (archived, delta, next) = scan_changes(m, files);
            proof {
                assert(indexed(files@, archived@).len() == archived@.len());
            }
            let outcome = if archived.len() == 0 {
                BackupOutcome::Unchanged
            } else {
                BackupOutcome::Created
            };
            let version = Version { name, target, backup_type: BackupType::FileDelta, file_hash: delta };
            CapturePlan { outcome, archived, version, manifest: next }
        },
    }
}


proof fn lemma_no_changes(files: Seq<FileEntry>, m: Map<Seq<char>, Seq<char>>)
    requires
        forall|i: int| 0 <= i < files.len() ==> !differs(#[trigger] files[i], m),
    ensures
        changed_files(files, m) == Seq::<FileEntry>::empty(),
    decreases files.len(),
{
    if files.len() > 0 {
        assert(!differs(files[files.len() - 1], m));
        assert forall|i: int| 0 <= i < files.drop_last().len() implies !differs(#[trigger] files.drop_last()[i], m) by {
            assert(files.drop_last()[i] == files[i]);
        }
        lemma_no_changes(files.drop_last(), m);
    }
}

proof fn lemma_one_change(files: Seq<FileEntry>, m: Map<Seq<char>, Seq<char>>, k: int)
    requires
        0 <= k < files.len(),
        differs(files[k], m),
        forall|i: int| 0 <= i < files.len() && i != k ==> !differs(#[trigger] files[i], m),
    ensures
        changed_files(files, m) == seq![files[k]],
    decreases files.len(),
{
    let init = files.drop_last();
    assert forall|i: int| 0 <= i < init.len() && i != k implies !differs(#[trigger] init[i], m) by {
        assert(init[i] == files[i]);
    }
    if k == files.len() - 1 {
        assert forall|i: int| 0 <= i < init.len() implies !differs(#[trigger] init[i], m) by {
            assert(init[i] == files[i]);
        }
        lemma_no_changes(init, m);
        assert(changed_files(files, m) =~= seq![files[k]]);
    } else {
        assert(!differs(files[files.len() - 1], m));
        assert(init[k] == files[k]);
        lemma_one_change(init, m, k);
    }
}

/// Capturing a tree a second time, against the manifest that the first
/// capture left, archives nothing and leaves that manifest as it is: the
/// second outcome is `Unchanged`.
pub proof fn lemma_capture_idempotent(prev: Map<Seq<char>, Seq<char>>, files: Seq<FileEntry>)
    requires
        tree_wf(files),
    ensures
        ({
            let next = prev.union_prefer_right(snapshot_of(files));
            &&& changed_files(files, next) == Seq::<FileEntry>::empty()
            &&& changed_part(snapshot_of(files), next) == Map::<Seq<char>, Seq<char>>::empty()
            &&& next.union_prefer_right(snapshot_of(files)) == next
        }),
{
    let snap = snapshot_of(files);
    let next = prev.union_prefer_right(snap);
    assert forall|i: int| 0 <= i < files.len() implies !differs(#[trigger] files[i], next) by {
        crate::tree::lemma_snapshot_index(files, i);
    }
    lemma_no_changes(files, next);
    assert(changed_part(snap, next) =~= Map::<Seq<char>, Seq<char>>::empty());
    assert(next.union_prefer_right(snap) =~= next);
}

/// The first capture of a tree of N files archives all N of them, in tree
/// order, and records a manifest of N entries, each the content hash of its
/// file.
pub proof fn lemma_capture_complete(files: Seq<FileEntry>)
    requires
        tree_wf(files),
    ensures
        changed_files(files, Map::empty()) == files,
        changed_part(snapshot_of(files), Map::empty()) == snapshot_of(files),
        Map::<Seq<char>, Seq<char>>::empty().union_prefer_right(snapshot_of(files)) == snapshot_of(files),
        snapshot_of(files).dom().finite(),
        snapshot_of(files).len() == files.len(),
        forall|i: int| 0 <= i < files.len() ==> #[trigger] snapshot_of(files)[files[i].path@] == content_hash(files[i].content@),
    decreases files.len(),
{
    let snap = snapshot_of(files);
    if files.len() > 0 {
        crate::tree::lemma_tree_wf_prefix(files, files.len() - 1);
        assert(files.subrange(0, files.len() - 1) =~= files.drop_last());
        lemma_capture_complete(files.drop_last());
        assert(files.drop_last().push(files.last()) =~= files);
        lemma_snapshot_dom(files.drop_last(), files.last().path@);
        assert(!snapshot_of(files.drop_last()).contains_key(files.last().path@)) by {
            if snapshot_of(files.drop_last()).contains_key(files.last().path@) {
                let k = choose|k: int| 0 <= k < files.drop_last().len() && files.drop_last()[k].path@ == files.last().path@;
                assert(files[k].path@ == files[files.len() - 1].path@);
            }
        }
    }
    assert(changed_part(snap, Map::empty()) =~= snap);
    assert(Map::<Seq<char>, Seq<char>>::empty().union_prefer_right(snap) =~= snap);
    assert forall|i: int| 0 <= i < files.len() implies #[trigger] snap[files[i].path@] == content_hash(files[i].content@) by {
        crate::tree::lemma_snapshot_index(files, i);
    }
}

/// After a baseline capture of `files`, changing the content of the one file
/// at index `k` and capturing again archives exactly that file, and the
/// manifest changes in that file's entry alone.
pub proof fn lemma_capture_incremental(files: Seq<FileEntry>, k: int, modified: FileEntry)
    requires
        tree_wf(files),
        0 <= k < files.len(),
        modified.path@ == files[k].path@,
        crate::digest::digestible(modified.content@),
        content_hash(modified.content@) != content_hash(files[k].content@),
    ensures
        ({
            let base = snapshot_of(files);
            let after = files.update(k, modified);
            &&& changed_files(after, base) == seq![modified]
            &&& changed_part(snapshot_of(after), base) == map![modified.path@ => content_hash(modified.content@)]
            &&& base.union_prefer_right(snapshot_of(after)) == base.insert(modified.path@, content_hash(modified.content@))
        }),
{
    let base = snapshot_of(files);
    let after = files.update(k, modified);
    let p = modified.path@;
    let h = content_hash(modified.content@);
    assert(tree_wf(after)) by {
        assert forall|i: int| 0 <= i < after.len() implies crate::digest::digestible(#[trigger] after[i].content@) by {
            if i != k {
                assert(after[i] == files[i]);
            }
        }
    }
    assert forall|i: int| 0 <= i < after.len() && i != k implies !differs(#[trigger] after[i], base) by {
        crate::tree::lemma_snapshot_index(files, i);
    }
    crate::tree::lemma_snapshot_index(files, k);
    lemma_one_change(after, base, k);
    assert(snapshot_of(after) =~= base.insert(p, h)) by {
        assert forall|q: Seq<char>| #[trigger] snapshot_of(after).contains_key(q) == base.insert(p, h).contains_key(q) by {
            lemma_snapshot_dom(after, q);
            lemma_snapshot_dom(files, q);
            if exists|i: int| 0 <= i < files.len() && files[i].path@ == q {
                let i = choose|i: int| 0 <= i < files.len() && files[i].path@ == q;
                if i != k {
                    assert(after[i].path@ == q);
                }
            }
            if exists|i: int| 0 <= i < after.len() && after[i].path@ == q {
                let i = choose|i: int| 0 <= i < after.len() && after[i].path@ == q;
                if i != k {
                    assert(files[i].path@ == q);
                }
            }
        }
        assert forall|q: Seq<char>| #[trigger] snapshot_of(after).contains_key(q) implies snapshot_of(after)[q] == base.insert(p, h)[q] by {
            lemma_snapshot_dom(after, q);
            let i = choose|i: int| 0 <= i < after.len() && after[i].path@ == q;
            crate::tree::lemma_snapshot_index(after, i);
            if i != k {
                crate::tree::lemma_snapshot_index(files, i);
                assert(after[i] == files[i]);
            }
        }
    }
    assert(changed_part(snapshot_of(after), base) =~= map![p => h]);
    assert(base.union_prefer_right(snapshot_of(after)) =~= base.insert(p, h));
}

} // verus!
