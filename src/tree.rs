//! Tree snapshots and the scan-forward diff of a tree against a manifest.

use vstd::prelude::*;

use crate::digest::{content_hash, digestible, hash};
use crate::manifest::Manifest;

verus! {

/// A regular file of a scanned tree: its path relative to the tree's root and
/// its bytes.
#[derive(Clone, Debug)]
pub struct FileEntry {
    pub path: String,
    pub content: Vec<u8>,
}

/// A scanned tree lists each path once, and every file can be hashed.
pub open spec fn tree_wf(files: Seq<FileEntry>) -> bool {
    &&& forall|i: int, j: int| 0 <= i < j < files.len() ==> files[i].path@ != files[j].path@
    &&& forall|i: int| 0 <= i < files.len() ==> digestible(#[trigger] files[i].content@)
}

/// The manifest of a tree: each path mapped to the content hash of its file.
pub open spec fn snapshot_of(files: Seq<FileEntry>) -> Map<Seq<char>, Seq<char>>
    decreases files.len(),
{
    if files.len() == 0 {
        Map::empty()
    } else {
        snapshot_of(files.drop_last()).insert(files.last().path@, content_hash(files.last().content@))
    }
}

/// A file whose content disagrees with a manifest.
pub struct DiffView {
    pub path: Seq<char>,
    pub conflict: bool,
    pub old_hash: Option<Seq<char>>,
    pub new_hash: Seq<char>,
}

/// The entry for the file `f` against the manifest `m`.
pub open spec fn diff_view_of(f: FileEntry, m: Map<Seq<char>, Seq<char>>) -> DiffView {
    DiffView {
        path: f.path@,
        conflict: m.contains_key(f.path@),
        old_hash: if m.contains_key(f.path@) { Some(m[f.path@]) } else { None },
        new_hash: content_hash(f.content@),
    }
}

/// `f`'s content is not what `m` records for its path.
pub open spec fn differs(f: FileEntry, m: Map<Seq<char>, Seq<char>>) -> bool {
    !m.contains_key(f.path@) || m[f.path@] != content_hash(f.content@)
}

/// One entry, in tree order, for each file whose hash differs from (or is
/// absent in) the manifest; paths that the manifest has and the tree lacks
/// are not reported.
pub open spec fn diff_of(files: Seq<FileEntry>, m: Map<Seq<char>, Seq<char>>) -> Seq<DiffView>
    decreases files.len(),
{
    if files.len() == 0 {
        Seq::empty()
    } else if differs(files.last(), m) {
        diff_of(files.drop_last(), m).push(diff_view_of(files.last(), m))
    } else {
        diff_of(files.drop_last(), m)
    }
}

/// The files of `diff_of`, in the same order.
pub open spec fn changed_files(files: Seq<FileEntry>, m: Map<Seq<char>, Seq<char>>) -> Seq<FileEntry>
    decreases files.len(),
{
    if files.len() == 0 {
        Seq::empty()
    } else if differs(files.last(), m) {
        changed_files(files.drop_last(), m).push(files.last())
    } else {
        changed_files(files.drop_last(), m)
    }
}

/// A new or changed file of a tree, against a manifest.
#[derive(Clone, Debug)]
pub struct DiffEntry {
    pub path: String,
    /// The manifest already had an entry for this path.
    pub conflict: bool,
    pub old_hash: Option<String>,
    pub new_hash: String,
}

impl View for DiffEntry {
    type V = DiffView;

    open spec fn view(&self) -> DiffView {
        DiffView {
            path: self.path@,
            conflict: self.conflict,
            old_hash: match self.old_hash {
                Some(h) => Some(h@),
                None => None,
            },
            new_hash: self.new_hash@,
        }
    }
}

pub open spec fn diff_views(d: Seq<DiffEntry>) -> Seq<DiffView> {
    d.map_values(|e: DiffEntry| e@)
}

pub proof fn lemma_prefix_drop_last<T>(s: Seq<T>, i: int)
    requires
        0 <= i < s.len(),
    ensures
        s.subrange(0, i + 1).drop_last() == s.subrange(0, i),
        s.subrange(0, i + 1).last() == s[i],
{
    assert(s.subrange(0, i + 1).drop_last() =~= s.subrange(0, i));
}

pub proof fn lemma_tree_wf_prefix(files: Seq<FileEntry>, n: int)
    requires
        tree_wf(files),
        0 <= n <= files.len(),
    ensures
        tree_wf(files.subrange(0, n)),
{
    let s = files.subrange(0, n);
    assert forall|i: int| 0 <= i < s.len() implies digestible(#[trigger] s[i].content@) by {
        assert(s[i] == files[i]);
    }
}

/// The manifest of the tree `files`.
pub fn snapshot(files: &Vec<FileEntry>) -> (r: Manifest)
    requires
        tree_wf(files@),
    ensures
        r.wf(),
        r@ == snapshot_of(files@),
        forall|p: Seq<char>| #[trigger] r@.contains_key(p) ==> r@[p].len() == 64,
{
    let mut m = Manifest::new();
    let mut i: usize = 0;
    proof {
        assert(files@.subrange(0, 0) =~= Seq::<FileEntry>::empty());
    }
    while i < files.len()
        invariant
            tree_wf(files@),
            i <= files.len(),
            m.wf(),
            m@ == snapshot_of(files@.subrange(0, i as int)),
            forall|p: Seq<char>| #[trigger] m@.contains_key(p) ==> m@[p].len() == 64,
        decreases files.len() - i,
    {
        let h = hash(files[i].content.as_slice());
        proof {
            lemma_prefix_drop_last(files@, i as int);
        }
        m.insert(files[i].path.clone(), h);
        i = i + 1;
    }
    proof {
        assert(files@.subrange(0, files.len() as int) =~= files@);
    }
    m
}

/// The scan-forward diff of the tree `files` against the manifest `m`.
pub fn diff(files: &Vec<FileEntry>, m: &Manifest) -> (r: Vec<DiffEntry>)
    requires
        tree_wf(files@),
        m.wf(),
    ensures
        diff_views(r@) == diff_of(files@, m@),
{
    let mut r: Vec<DiffEntry> = Vec::new();
    let mut i: usize = 0;
    proof {
        assert(files@.subrange(0, 0) =~= Seq::<FileEntry>::empty());
        assert(diff_views(r@) =~= Seq::<DiffView>::empty());
    }
    while i < files.len()
        invariant
            tree_wf(files@),
            m.wf(),
            i <= files.len(),
            diff_views(r@) == diff_of(files@.subrange(0, i as int), m@),
        decreases files.len() - i,
    {
        let h = hash(files[i].content.as_slice());
        let old = m.get(&files[i].path);
        proof {
            lemma_prefix_drop_last(files@, i as int);
        }
        let same = match &old {
            Some(o) => *o == h,
            None => false,
        };
        if !same {
            let conflict = old.is_some();
            let e = DiffEntry { path: files[i].path.clone(), conflict, old_hash: old, new_hash: h };
            proof {
                assert(e@ == diff_view_of(files@[i as int], m@));
            }
            r.push(e);
            proof {
                assert(diff_views(r@) =~= diff_views(r@.drop_last()).push(e@));
            }
        }
        i = i + 1;
    }
    proof {
        assert(files@.subrange(0, files.len() as int) =~= files@);
    }
    r
}


pub proof fn lemma_snapshot_dom(files: Seq<FileEntry>, p: Seq<char>)
    ensures
        snapshot_of(files).contains_key(p) <==> exists|i: int| 0 <= i < files.len() && files[i].path@ == p,
    decreases files.len(),
{
    if files.len() > 0 {
        lemma_snapshot_dom(files.drop_last(), p);
        if snapshot_of(files.drop_last()).contains_key(p) {
            let i = choose|i: int| 0 <= i < files.drop_last().len() && files.drop_last()[i].path@ == p;
            assert(files[i].path@ == p);
        }
        if exists|i: int| 0 <= i < files.len() && files[i].path@ == p {
            let i = choose|i: int| 0 <= i < files.len() && files[i].path@ == p;
            if i < files.len() - 1 {
                assert(files.drop_last()[i].path@ == p);
            }
        }
    }
}

pub proof fn lemma_snapshot_index(files: Seq<FileEntry>, i: int)
    requires
        tree_wf(files),
        0 <= i < files.len(),
    ensures
        snapshot_of(files).contains_key(files[i].path@),
        snapshot_of(files)[files[i].path@] == content_hash(files[i].content@),
    decreases files.len(),
{
    if i < files.len() - 1 {
        lemma_tree_wf_prefix(files, files.len() - 1);
        assert(files.subrange(0, files.len() - 1) =~= files.drop_last());
        lemma_snapshot_index(files.drop_last(), i);
        assert(files.drop_last()[i] == files[i]);
        assert(files[i].path@ != files[files.len() - 1].path@);
    }
}

/// The part of the snapshot `snap` that the manifest `m` does not already
/// record: what an incremental version stores.
pub open spec fn changed_part(snap: Map<Seq<char>, Seq<char>>, m: Map<Seq<char>, Seq<char>>) -> Map<
    Seq<char>,
    Seq<char>,
> {
    Map::new(
        |p: Seq<char>| snap.contains_key(p) && (!m.contains_key(p) || m[p] != snap[p]),
        |p: Seq<char>| snap[p],
    )
}

/// Adding the file `f` to a tree `g` that lacks its path.
pub proof fn lemma_capture_step(g: Seq<FileEntry>, f: FileEntry, m: Map<Seq<char>, Seq<char>>)
    requires
        !snapshot_of(g).contains_key(f.path@),
    ensures
        changed_part(snapshot_of(g.push(f)), m) == (if differs(f, m) {
            changed_part(snapshot_of(g), m).insert(f.path@, content_hash(f.content@))
        } else {
            changed_part(snapshot_of(g), m)
        }),
        m.union_prefer_right(snapshot_of(g.push(f))) == (if differs(f, m) {
            m.union_prefer_right(snapshot_of(g)).insert(f.path@, content_hash(f.content@))
        } else {
            m.union_prefer_right(snapshot_of(g))
        }),
        diff_of(g.push(f), m) == (if differs(f, m) {
            diff_of(g, m).push(diff_view_of(f, m))
        } else {
            diff_of(g, m)
        }),
        changed_files(g.push(f), m) == (if differs(f, m) {
            changed_files(g, m).push(f)
        } else {
            changed_files(g, m)
        }),
{
    assert(g.push(f).drop_last() =~= g);
    assert(g.push(f).last() == f);
    let s = snapshot_of(g.push(f));
    assert(s == snapshot_of(g).insert(f.path@, content_hash(f.content@)));
    if differs(f, m) {
        assert(changed_part(s, m) =~= changed_part(snapshot_of(g), m).insert(
            f.path@,
            content_hash(f.content@),
        ));
        assert(m.union_prefer_right(s) =~= m.union_prefer_right(snapshot_of(g)).insert(
            f.path@,
            content_hash(f.content@),
        ));
    } else {
        assert(changed_part(s, m) =~= changed_part(snapshot_of(g), m));
        assert(m.union_prefer_right(s) =~= m.union_prefer_right(snapshot_of(g)));
    }
}

} // verus!
