//! The content-addressed sync protocol: what a pull or a push does, decided
//! from the local tree and the remote manifest.
//!
//! A remote object is keyed by the content hash of its bytes. A diff entry
//! is a conflict when the remote manifest already records its path: every
//! re-edit of a synced file counts as one, and `force` and `skip_conflict`
//! are how a caller settles them.

use vstd::prelude::*;

use crate::digest::{content_hash, hash};
use crate::manifest::{Manifest, ManifestEntry};
use crate::tree::{
    differs, lemma_prefix_drop_last, lemma_snapshot_dom, snapshot_of, tree_wf, FileEntry,
};

verus! {

/// Where the object holding content with hash `hash` is stored under
/// `remote_root`: `<remote_root>/<hash>`. Identical content from different
/// paths therefore shares one object.
pub fn object_key(remote_root: &str, hash: &str) -> (r: String)
    ensures
        r@ == remote_root@ + seq!['/'] + hash@,
{
    let mut r = String::from_str(remote_root);
    r.append("/");
    r.append(hash);
    proof {
        reveal_strlit("/");
    }
    r
}

pub open spec fn manifest_file_name() -> Seq<char> {
    seq!['h', 'a', 's', 'h', '.', 'r', 'o', 'n']
}

/// Where the remote manifest is stored under `remote_root`:
/// `<remote_root>/hash.ron`.
pub fn manifest_key(remote_root: &str) -> (r: String)
    ensures
        r@ == remote_root@ + seq!['/'] + manifest_file_name(),
{
    let mut r = String::from_str(remote_root);
    r.append("/hash.ron");
    proof {
        reveal_strlit("/hash.ron");
        assert(r@ =~= remote_root@ + seq!['/'] + manifest_file_name());
    }
    r
}

/// Why a sync stopped.
#[derive(Debug)]
pub enum SyncError {
    /// Local and remote disagree on the content of this path.
    Conflict(String),
}

/// The file `f` exists on both sides with different content.
pub open spec fn is_conflict(f: FileEntry, m: Map<Seq<char>, Seq<char>>) -> bool {
    m.contains_key(f.path@) && m[f.path@] != content_hash(f.content@)
}

/// `i` is the first file of `files` in conflict with `m`.
pub open spec fn first_conflict(files: Seq<FileEntry>, m: Map<Seq<char>, Seq<char>>, i: int) -> bool {
    &&& 0 <= i < files.len()
    &&& is_conflict(files[i], m)
    &&& forall|j: int| 0 <= j < i ==> !is_conflict(#[trigger] files[j], m)
}

pub open spec fn has_conflict(files: Seq<FileEntry>, m: Map<Seq<char>, Seq<char>>) -> bool {
    exists|i: int| 0 <= i < files.len() && is_conflict(#[trigger] files[i], m)
}

/// The paths of the files in conflict with `m`, in tree order.
pub open spec fn conflict_paths(files: Seq<FileEntry>, m: Map<Seq<char>, Seq<char>>) -> Seq<Seq<char>>
    decreases files.len(),
{
    if files.len() == 0 {
        Seq::empty()
    } else if is_conflict(files.last(), m) {
        conflict_paths(files.drop_last(), m).push(files.last().path@)
    } else {
        conflict_paths(files.drop_last(), m)
    }
}

pub open spec fn in_tree(files: Seq<FileEntry>, p: Seq<char>) -> bool {
    exists|i: int| 0 <= i < files.len() && files[i].path@ == p
}

/// The remote entries, in manifest order, whose path is not present locally.
pub open spec fn missing_entries(entries: Seq<ManifestEntry>, present: spec_fn(Seq<char>) -> bool) -> Seq<ManifestEntry>
    decreases entries.len(),
{
    if entries.len() == 0 {
        Seq::empty()
    } else if present(entries.last().path@) {
        missing_entries(entries.drop_last(), present)
    } else {
        missing_entries(entries.drop_last(), present).push(entries.last())
    }
}

/// What a pull does locally: the files it deletes, then the objects it
/// fetches, each into its path.
#[derive(Debug)]
pub struct PullPlan {
    pub remove: Vec<String>,
    pub fetch: Vec<ManifestEntry>,
}

pub open spec fn string_views(s: Seq<String>) -> Seq<Seq<char>> {
    s.map_values(|x: String| x@)
}

proof fn lemma_conflict_step(g: Seq<FileEntry>, f: FileEntry, m: Map<Seq<char>, Seq<char>>)
    ensures
        conflict_paths(g.push(f), m) == (if is_conflict(f, m) {
            conflict_paths(g, m).push(f.path@)
        } else {
            conflict_paths(g, m)
        }),
        has_conflict(g.push(f), m) == (has_conflict(g, m) || is_conflict(f, m)),
{
    assert(g.push(f).drop_last() =~= g);
    assert(g.push(f).last() == f);
    if has_conflict(g, m) {
        let i = choose|i: int| 0 <= i < g.len() && is_conflict(#[trigger] g[i], m);
        assert(g.push(f)[i] == g[i]);
    }
    if is_conflict(f, m) {
        assert(g.push(f)[g.len() as int] == f);
    }
    if has_conflict(g.push(f), m) {
        let i = choose|i: int| 0 <= i < g.push(f).len() && is_conflict(#[trigger] g.push(f)[i], m);
        if i < g.len() {
            assert(g.push(f)[i] == g[i]);
        }
    }
}

/// Whether `files` has a file at `path`.
fn tree_has(files: &Vec<FileEntry>, path: &String) -> (r: bool)
    ensures
        r == in_tree(files@, path@),
{
    let mut i: usize = 0;
    while i < files.len()
        invariant
            i <= files.len(),
            forall|k: int| 0 <= k < i ==> files@[k].path@ != path@,
        decreases files.len() - i,
    {
        if files[i].path == *path {
            return true;
        }
        i = i + 1;
    }
    false
}

fn list_has(list: &Vec<String>, s: &String) -> (r: bool)
    ensures
        r == string_views(list@).contains(s@),
{
    let mut i: usize = 0;
    while i < list.len()
        invariant
            i <= list.len(),
            forall|k: int| 0 <= k < i ==> list@[k]@ != s@,
        decreases list.len() - i,
    {
        if list[i] == *s {
            proof {
                assert(string_views(list@)[i as int] == s@);
            }
            return true;
        }
        i = i + 1;
    }
    false
}

/// Plans a pull of the remote tree described by `remote` into the local tree
/// `files`. A conflict stops the pull unless `skip_conflict` ignores
/// conflicts or `force` deletes the conflicting local files, the remote being
/// authoritative. Then every remote entry whose path is absent locally is
/// fetched.
pub fn plan_pull(files: &Vec<FileEntry>, remote: &Manifest, force: bool, skip_conflict: bool) -> (r: Result<PullPlan, SyncError>)
    requires
        tree_wf(files@),
        remote.wf(),
    ensures
        r is Err <==> (!skip_conflict && !force && has_conflict(files@, remote@)),
        r matches Err(SyncError::Conflict(p)) ==> exists|i: int| first_conflict(files@, remote@, i) && files@[i].path@ == p@,
        r matches Ok(plan) ==> {
            &&& string_views(plan.remove@) == (if skip_conflict {
                Seq::<Seq<char>>::empty()
            } else {
                conflict_paths(files@, remote@)
            })
            &&& plan.fetch@ == missing_entries(
                remote.entries@,
                |p: Seq<char>| in_tree(files@, p) && !string_views(plan.remove@).contains(p),
            )
        },
{
    let mut remove: Vec<String> = Vec::new();
    let mut i: usize = 0;
    proof {
        assert(files@.subrange(0, 0) =~= Seq::<FileEntry>::empty());
        assert(string_views(remove@) =~= Seq::<Seq<char>>::empty());
    }
    while i < files.len()
        invariant
            tree_wf(files@),
            remote.wf(),
            i <= files.len(),
            !skip_conflict && !force ==> !has_conflict(files@.subrange(0, i as int), remote@),
            string_views(remove@) == (if skip_conflict {
                Seq::<Seq<char>>::empty()
            } else {
                conflict_paths(files@.subrange(0, i as int), remote@)
            }),
        decreases files.len() - i,
    {
        let ghost g = files@.subrange(0, i as int);
        let ghost f = files@[i as int];
        proof {
            lemma_prefix_drop_last(files@, i as int);
            assert(files@.subrange(0, i + 1) =~= g.push(f));
            lemma_conflict_step(g, f, remote@);
        }
        if !skip_conflict {
            let h = hash(files[i].content.as_slice());
            let conflict = match remote.get(&files[i].path) {
                Some(o) => o != h,
                None => false,
            };
            if conflict {
                if !force {
                    proof {
                        assert(first_conflict(files@, remote@, i as int)) by {
                            assert forall|j: int| 0 <= j < i implies !is_conflict(#[trigger] files@[j], remote@) by {
                                assert(g[j] == files@[j]);
                                if is_conflict(files@[j], remote@) {
                                    assert(has_conflict(g, remote@));
                                }
                            }
                        }
                    }
                    return Err(SyncError::Conflict(files[i].path.clone()));
                }
                remove.push(files[i].path.clone());
                proof {
                    assert(string_views(remove@) =~= string_views(remove@.drop_last()).push(f.path@));
                }
            }
        }
        i = i + 1;
    }
    proof {
        assert(files@.subrange(0, files.len() as int) =~= files@);
    }
    let mut fetch: Vec<ManifestEntry> = Vec::new();
    let ghost present = |p: Seq<char>| in_tree(files@, p) && !string_views(remove@).contains(p);
    let mut k: usize = 0;
    proof {
        assert(remote.entries@.subrange(0, 0) =~= Seq::<ManifestEntry>::empty());
    }
    while k < remote.entries.len()
        invariant
            k <= remote.entries.len(),
            present == (|p: Seq<char>| in_tree(files@, p) && !string_views(remove@).contains(p)),
            fetch@ == missing_entries(remote.entries@.subrange(0, k as int), present),
        decreases remote.entries.len() - k,
    {
        proof {
            lemma_prefix_drop_last(remote.entries@, k as int);
        }
        let here = tree_has(files, &remote.entries[k].path) && !list_has(&remove, &remote.entries[k].path);
        if !here {
            let e = ManifestEntry {
                path: remote.entries[k].path.clone(),
                hash: remote.entries[k].hash.clone(),
            };
            fetch.push(e);
        }
        k = k + 1;
    }
    proof {
        assert(remote.entries@.subrange(0, remote.entries.len() as int) =~= remote.entries@);
    }
    proof {
        if !skip_conflict && !force {
            assert(!has_conflict(files@, remote@));
        }
    }
    Ok(PullPlan { remove, fetch })
}


/// Some path of `m` maps to `v`.
pub open spec fn has_value(m: Map<Seq<char>, Seq<char>>, v: Seq<char>) -> bool {
    exists|p: Seq<char>| #[trigger] m.contains_key(p) && m[p] == v
}

/// The new or changed local files that a push publishes: with
/// `skip_conflict`, only the paths that the remote does not have yet.
pub open spec fn pushed_part(files: Seq<FileEntry>, m: Map<Seq<char>, Seq<char>>, skip_conflict: bool) -> Map<
    Seq<char>,
    Seq<char>,
> {
    let snap = snapshot_of(files);
    Map::new(
        |p: Seq<char>|
            snap.contains_key(p) && (!m.contains_key(p) || m[p] != snap[p]) && !(skip_conflict && m.contains_key(p)),
        |p: Seq<char>| snap[p],
    )
}

/// Some upload of `up` carries the object key `h`.
pub open spec fn uploaded(up: Seq<ManifestEntry>, h: Seq<char>) -> bool {
    exists|i: int| 0 <= i < up.len() && #[trigger] up[i].hash@ == h
}

/// `up` uploads each published key that the remote does not hold yet, once,
/// from a path published with that key.
pub open spec fn uploads_ok(up: Seq<ManifestEntry>, pushed: Map<Seq<char>, Seq<char>>, m: Map<Seq<char>, Seq<char>>) -> bool {
    &&& forall|i: int| 0 <= i < up.len() ==> {
        &&& pushed.contains_key(#[trigger] up[i].path@)
        &&& pushed[up[i].path@] == up[i].hash@
        &&& !has_value(m, up[i].hash@)
    }
    &&& forall|p: Seq<char>| #[trigger] pushed.contains_key(p) && !has_value(m, pushed[p]) ==> uploaded(up, pushed[p])
    &&& forall|i: int, j: int| 0 <= i < j < up.len() ==> up[i].hash@ != up[j].hash@
}

/// `k` was the key of a path that the push overwrites.
pub open spec fn replaced_key(pushed: Map<Seq<char>, Seq<char>>, m: Map<Seq<char>, Seq<char>>, k: Seq<char>) -> bool {
    exists|p: Seq<char>| #[trigger] pushed.contains_key(p) && m.contains_key(p) && m[p] == k
}

pub open spec fn distinct_strings(s: Seq<Seq<char>>) -> bool {
    forall|i: int, j: int| 0 <= i < j < s.len() ==> s[i] != s[j]
}

/// What a push does remotely: the objects it uploads (each from a local
/// path, under its key), the remote manifest it then writes, and the stale
/// objects it deletes once that manifest no longer names them.
#[derive(Debug)]
pub struct PushPlan {
    pub delete: Vec<String>,
    pub upload: Vec<ManifestEntry>,
    pub manifest: Manifest,
}

proof fn lemma_push_step(g: Seq<FileEntry>, f: FileEntry, m: Map<Seq<char>, Seq<char>>, skip_conflict: bool)
    requires
        !snapshot_of(g).contains_key(f.path@),
    ensures
        pushed_part(g.push(f), m, skip_conflict) == (if differs(f, m) && !(skip_conflict && m.contains_key(f.path@)) {
            pushed_part(g, m, skip_conflict).insert(f.path@, content_hash(f.content@))
        } else {
            pushed_part(g, m, skip_conflict)
        }),
{
    assert(g.push(f).drop_last() =~= g);
    assert(g.push(f).last() == f);
    if differs(f, m) && !(skip_conflict && m.contains_key(f.path@)) {
        assert(pushed_part(g.push(f), m, skip_conflict) =~= pushed_part(g, m, skip_conflict).insert(
            f.path@,
            content_hash(f.content@),
        ));
    } else {
        assert(pushed_part(g.push(f), m, skip_conflict) =~= pushed_part(g, m, skip_conflict));
    }
}

fn uploads_have(up: &Vec<ManifestEntry>, h: &String) -> (r: bool)
    ensures
        r == uploaded(up@, h@),
{
    let mut i: usize = 0;
    while i < up.len()
        invariant
            i <= up.len(),
            forall|k: int| 0 <= k < i ==> up@[k].hash@ != h@,
        decreases up.len() - i,
    {
        if up[i].hash == *h {
            return true;
        }
        i = i + 1;
    }
    false
}

/// Plans a push of the local tree `files` to the remote tree described by
/// `remote`. Conflicts are handled as in a pull. Each published file is
/// recorded under its new hash; a key that no remote object holds yet is
/// uploaded once, however many paths share it; an overwritten key is deleted
/// once nothing in the new manifest refers to it.
pub fn plan_push(files: &Vec<FileEntry>, remote: &Manifest, force: bool, skip_conflict: bool) -> (r: Result<PushPlan, SyncError>)
    requires
        tree_wf(files@),
        remote.wf(),
    ensures
        r is Err <==> (!skip_conflict && !force && has_conflict(files@, remote@)),
        r matches Err(SyncError::Conflict(p)) ==> exists|i: int| first_conflict(files@, remote@, i) && files@[i].path@ == p@,
        r matches Ok(plan) ==> {
            let pushed = pushed_part(files@, remote@, skip_conflict);
            &&& plan.manifest.wf()
            &&& plan.manifest@ == remote@.union_prefer_right(pushed)
            &&& uploads_ok(plan.upload@, pushed, remote@)
            &&& distinct_strings(string_views(plan.delete@))
            &&& forall|k: Seq<char>| #[trigger] string_views(plan.delete@).contains(k) <==> (replaced_key(pushed, remote@, k) && !has_value(plan.manifest@, k))
        },
{
    let mut next = remote.duplicate();
    let mut upload: Vec<ManifestEntry> = Vec::new();
    let mut olds: Vec<String> = Vec::new();
    let mut i: usize = 0;
    proof {
        assert(files@.subrange(0, 0) =~= Seq::<FileEntry>::empty());
        assert(pushed_part(Seq::<FileEntry>::empty(), remote@, skip_conflict) =~= Map::<Seq<char>, Seq<char>>::empty());
        assert(next@ =~= remote@.union_prefer_right(Map::<Seq<char>, Seq<char>>::empty()));
    }
    while i < files.len()
        invariant
            tree_wf(files@),
            remote.wf(),
            i <= files.len(),
            !skip_conflict && !force ==> !has_conflict(files@.subrange(0, i as int), remote@),
            next.wf(),
            next@ == remote@.union_prefer_right(pushed_part(files@.subrange(0, i as int), remote@, skip_conflict)),
            uploads_ok(upload@, pushed_part(files@.subrange(0, i as int), remote@, skip_conflict), remote@),
            forall|k: Seq<char>| #[trigger] string_views(olds@).contains(k) <==> replaced_key(pushed_part(files@.subrange(0, i as int), remote@, skip_conflict), remote@, k),
        decreases files.len() - i,
    {
        let ghost g = files@.subrange(0, i as int);
        let ghost f = files@[i as int];
        let ghost before = pushed_part(g, remote@, skip_conflict);
        proof {
            lemma_prefix_drop_last(files@, i as int);
            assert(files@.subrange(0, i + 1) =~= g.push(f));
            lemma_conflict_step(g, f, remote@);
            lemma_snapshot_dom(g, f.path@);
            assert(!snapshot_of(g).contains_key(f.path@)) by {
                if snapshot_of(g).contains_key(f.path@) {
                    let k = choose|k: int| 0 <= k < g.len() && g[k].path@ == f.path@;
                    assert(files@[k].path@ == files@[i as int].path@);
                }
            }
            lemma_push_step(g, f, remote@, skip_conflict);
            assert(!before.contains_key(f.path@));
        }
        let h = hash(files[i].content.as_slice());
        let old = remote.get(&files[i].path);
        let changed = match &old {
            Some(o) => *o != h,
            None => true,
        };
        let conflict = old.is_some();
        if changed && !(conflict && skip_conflict) {
            if conflict && !force {
                proof {
                    assert(first_conflict(files@, remote@, i as int)) by {
                        assert forall|j: int| 0 <= j < i implies !is_conflict(#[trigger] files@[j], remote@) by {
                            assert(g[j] == files@[j]);
                            if is_conflict(files@[j], remote@) {
                                assert(has_conflict(g, remote@));
                            }
                        }
                    }
                }
                return Err(SyncError::Conflict(files[i].path.clone()));
            }
            let ghost after = before.insert(f.path@, h@);
            let ghost olds_before = olds@;
            match old {
                Some(o) => {
                    olds.push(o);
                },
                None => {},
            }
            proof {
                assert forall|k: Seq<char>| #[trigger] string_views(olds@).contains(k) <==> replaced_key(after, remote@, k) by {
                    if string_views(olds@).contains(k) {
                        let j = choose|j: int| 0 <= j < string_views(olds@).len() && string_views(olds@)[j] == k;
                        if j < olds_before.len() {
                            assert(olds@[j] == olds_before[j]);
                            assert(string_views(olds_before)[j] == k);
                            assert(string_views(olds_before).contains(k));
                            assert(replaced_key(before, remote@, k));
                            let p = choose|p: Seq<char>| #[trigger] before.contains_key(p) && remote@.contains_key(p) && remote@[p] == k;
                            assert(after.contains_key(p));
                        } else {
                            assert(after.contains_key(f.path@));
                        }
                    }
                    if replaced_key(after, remote@, k) {
                        let p = choose|p: Seq<char>| #[trigger] after.contains_key(p) && remote@.contains_key(p) && remote@[p] == k;
                        if p == f.path@ {
                            assert(string_views(olds@)[olds@.len() - 1] == k);
                        } else {
                            assert(before.contains_key(p));
                            assert(string_views(olds_before).contains(k));
                            let j = choose|j: int| 0 <= j < string_views(olds_before).len() && string_views(olds_before)[j] == k;
                            assert(string_views(olds@)[j] == k);
                        }
                    }
                }
            }
            let known = remote.contains_hash(&h);
            if !known && !uploads_have(&upload, &h) {
                let ghost up_before = upload@;
                upload.push(ManifestEntry { path: files[i].path.clone(), hash: h.clone() });
                proof {
                    assert forall|p: Seq<char>| #[trigger] after.contains_key(p) && !has_value(remote@, after[p]) implies uploaded(upload@, after[p]) by {
                        if p == f.path@ {
                            assert(upload@[upload@.len() - 1].hash@ == after[p]);
                        } else {
                            assert(before.contains_key(p));
                            let j = choose|j: int| 0 <= j < up_before.len() && #[trigger] up_before[j].hash@ == before[p];
                            assert(upload@[j] == up_before[j]);
                        }
                    }
                    assert forall|a: int| 0 <= a < upload@.len() implies {
                        &&& after.contains_key(#[trigger] upload@[a].path@)
                        &&& after[upload@[a].path@] == upload@[a].hash@
                        &&& !has_value(remote@, upload@[a].hash@)
                    } by {
                        if a < up_before.len() {
                            assert(upload@[a] == up_before[a]);
                        }
                    }
                    assert forall|a: int, b: int| 0 <= a < b < upload@.len() implies upload@[a].hash@ != upload@[b].hash@ by {
                        if b == upload@.len() - 1 {
                            assert(upload@[a] == up_before[a]);
                        } else {
                            assert(upload@[a] == up_before[a] && upload@[b] == up_before[b]);
                        }
                    }
                }
            } else {
                proof {
                    assert forall|p: Seq<char>| #[trigger] after.contains_key(p) && !has_value(remote@, after[p]) implies uploaded(upload@, after[p]) by {
                        if p != f.path@ {
                            assert(before.contains_key(p));
                        }
                    }
                    assert forall|a: int| 0 <= a < upload@.len() implies {
                        &&& after.contains_key(#[trigger] upload@[a].path@)
                        &&& after[upload@[a].path@] == upload@[a].hash@
                        &&& !has_value(remote@, upload@[a].hash@)
                    } by {
                        assert(before.contains_key(upload@[a].path@));
                    }
                }
            }
            next.insert(files[i].path.clone(), h);
            proof {
                assert(next@ =~= remote@.union_prefer_right(after));
            }
        }
        i = i + 1;
    }
    proof {
        assert(files@.subrange(0, files.len() as int) =~= files@);
    }
    let mut delete: Vec<String> = Vec::new();
    let mut j: usize = 0;
    while j < olds.len()
        invariant
            j <= olds.len(),
            next.wf(),
            distinct_strings(string_views(delete@)),
            forall|k: Seq<char>| #[trigger] string_views(delete@).contains(k) <==> (string_views(olds@.subrange(0, j as int)).contains(k) && !has_value(next@, k)),
        decreases olds.len() - j,
    {
        let ghost del_before = delete@;
        let ghost k0 = olds@[j as int]@;
        proof {
            assert forall|k: Seq<char>| #[trigger] string_views(olds@.subrange(0, j + 1)).contains(k) <==> (string_views(olds@.subrange(0, j as int)).contains(k) || k == k0) by {
                let longer = string_views(olds@.subrange(0, j + 1));
                let shorter = string_views(olds@.subrange(0, j as int));
                if longer.contains(k) {
                    let a = choose|a: int| 0 <= a < longer.len() && longer[a] == k;
                    if a < j {
                        assert(shorter[a] == k);
                    }
                }
                if shorter.contains(k) {
                    let a = choose|a: int| 0 <= a < shorter.len() && shorter[a] == k;
                    assert(longer[a] == k);
                }
                if k == k0 {
                    assert(longer[j as int] == k);
                }
            }
        }
        if !next.contains_hash(&olds[j]) && !list_has(&delete, &olds[j]) {
            delete.push(olds[j].clone());
            proof {
                assert(string_views(delete@) =~= string_views(del_before).push(k0));
                assert forall|k: Seq<char>| #[trigger] string_views(delete@).contains(k) <==> (string_views(del_before).contains(k) || k == k0) by {
                    if string_views(delete@).contains(k) {
                        let a = choose|a: int| 0 <= a < string_views(delete@).len() && string_views(delete@)[a] == k;
                        if a < del_before.len() {
                            assert(string_views(del_before)[a] == k);
                        }
                    }
                    if string_views(del_before).contains(k) {
                        let a = choose|a: int| 0 <= a < string_views(del_before).len() && string_views(del_before)[a] == k;
                        assert(string_views(delete@)[a] == k);
                    }
                    if k == k0 {
                        assert(string_views(delete@)[del_before.len() as int] == k);
                    }
                }
            }
        }
        j = j + 1;
    }
    proof {
        assert(olds@.subrange(0, olds.len() as int) =~= olds@);
        if !skip_conflict && !force {
            assert(!has_conflict(files@, remote@));
        }
    }
    Ok(PushPlan { delete, upload, manifest: next })
}


/// Pushing two different new paths whose bytes are identical leaves one
/// object for both: the push uploads it once when the remote does not hold
/// that content yet, and not at all when it does; the written manifest
/// refers to it from each path.
pub proof fn lemma_push_dedup(
    files: Seq<FileEntry>,
    remote: Map<Seq<char>, Seq<char>>,
    skip_conflict: bool,
    up: Seq<ManifestEntry>,
    a: int,
    b: int,
)
    requires
        tree_wf(files),
        uploads_ok(up, pushed_part(files, remote, skip_conflict), remote),
        0 <= a < files.len(),
        0 <= b < files.len(),
        a != b,
        files[a].content@ == files[b].content@,
        !remote.contains_key(files[a].path@),
        !remote.contains_key(files[b].path@),
    ensures
        ({
            let h = content_hash(files[a].content@);
            let written = remote.union_prefer_right(pushed_part(files, remote, skip_conflict));
            &&& !has_value(remote, h) ==> exists|i: int|
                0 <= i < up.len() && up[i].hash@ == h && forall|j: int| 0 <= j < up.len() && #[trigger] up[j].hash@ == h ==> j == i
            &&& has_value(remote, h) ==> forall|j: int| 0 <= j < up.len() ==> #[trigger] up[j].hash@ != h
            &&& written[files[a].path@] == h
            &&& written[files[b].path@] == h
        }),
{
    let h = content_hash(files[a].content@);
    let pushed = pushed_part(files, remote, skip_conflict);
    crate::tree::lemma_snapshot_index(files, a);
    crate::tree::lemma_snapshot_index(files, b);
    assert(pushed.contains_key(files[a].path@));
    assert(pushed.contains_key(files[b].path@));
    if !has_value(remote, h) {
        assert(uploaded(up, pushed[files[a].path@]));
        let i = choose|i: int| 0 <= i < up.len() && #[trigger] up[i].hash@ == h;
        assert forall|j: int| 0 <= j < up.len() && #[trigger] up[j].hash@ == h implies j == i by {
            if j < i {
                assert(up[j].hash@ != up[i].hash@);
            } else if j > i {
                assert(up[i].hash@ != up[j].hash@);
            }
        }
    } else {
        assert forall|j: int| 0 <= j < up.len() implies #[trigger] up[j].hash@ != h by {
            assert(pushed.contains_key(up[j].path@));
            assert(!has_value(remote, up[j].hash@));
        }
    }
}

proof fn lemma_conflict_listed(files: Seq<FileEntry>, m: Map<Seq<char>, Seq<char>>, j: int)
    requires
        0 <= j < files.len(),
        is_conflict(files[j], m),
    ensures
        conflict_paths(files, m).contains(files[j].path@),
    decreases files.len(),
{
    let init = files.drop_last();
    if j == files.len() - 1 {
        let c = conflict_paths(files, m);
        assert(c[c.len() - 1] == files[j].path@);
    } else {
        assert(init[j] == files[j]);
        lemma_conflict_listed(init, m, j);
        let c0 = conflict_paths(init, m);
        let k = choose|k: int| 0 <= k < c0.len() && c0[k] == files[j].path@;
        if is_conflict(files.last(), m) {
            assert(conflict_paths(files, m)[k] == files[j].path@);
        }
    }
}

proof fn lemma_missing_from_entries(entries: Seq<ManifestEntry>, present: spec_fn(Seq<char>) -> bool, k: int)
    requires
        0 <= k < missing_entries(entries, present).len(),
    ensures
        exists|i: int| 0 <= i < entries.len() && entries[i] == missing_entries(entries, present)[k],
    decreases entries.len(),
{
    let init = entries.drop_last();
    let r = missing_entries(entries, present);
    if present(entries.last().path@) || k < missing_entries(init, present).len() {
        lemma_missing_from_entries(init, present, k);
        let i = choose|i: int| 0 <= i < init.len() && init[i] == missing_entries(init, present)[k];
        assert(entries[i] == init[i]);
    } else {
        assert(entries[entries.len() - 1] == r[k]);
    }
}

/// After a forced pull, nothing is in conflict: the local tree, made of the
/// files that the pull kept and of the fetched objects (each holding content
/// whose hash is its key), agrees with the remote manifest wherever both
/// have a path. This is why a sync pulls before it pushes.
pub proof fn lemma_forced_pull_settles(
    files: Seq<FileEntry>,
    remote: Manifest,
    remove: Seq<String>,
    fetch: Seq<ManifestEntry>,
    after: Seq<FileEntry>,
)
    requires
        remote.wf(),
        string_views(remove) == conflict_paths(files, remote@),
        fetch == missing_entries(
            remote.entries@,
            |p: Seq<char>| in_tree(files, p) && !string_views(remove).contains(p),
        ),
        forall|i: int| 0 <= i < after.len() ==> {
            ||| exists|j: int| 0 <= j < files.len() && files[j] == #[trigger] after[i] && !string_views(remove).contains(files[j].path@)
            ||| exists|k: int| 0 <= k < fetch.len() && fetch[k].path@ == (#[trigger] after[i]).path@ && content_hash(after[i].content@) == fetch[k].hash@
        },
    ensures
        !has_conflict(after, remote@),
{
    let present = |p: Seq<char>| in_tree(files, p) && !string_views(remove).contains(p);
    assert forall|i: int| 0 <= i < after.len() implies !is_conflict(#[trigger] after[i], remote@) by {
        if exists|j: int| 0 <= j < files.len() && files[j] == after[i] && !string_views(remove).contains(files[j].path@) {
            let j = choose|j: int| 0 <= j < files.len() && files[j] == after[i] && !string_views(remove).contains(files[j].path@);
            if is_conflict(files[j], remote@) {
                lemma_conflict_listed(files, remote@, j);
            }
        } else {
            let k = choose|k: int| 0 <= k < fetch.len() && fetch[k].path@ == after[i].path@ && content_hash(after[i].content@) == fetch[k].hash@;
            lemma_missing_from_entries(remote.entries@, present, k);
            let e = choose|e: int| 0 <= e < remote.entries@.len() && remote.entries@[e] == fetch[k];
            crate::manifest::lemma_entries_map_index(remote.entries@, e);
        }
    }
}

} // verus!
