//! Restoring a point-in-time tree: which versions to unpack, in which order,
//! and what replaying them reconstructs.
//!
//! Versions are applied oldest first, up to and including the version taken
//! at the requested timestamp.

use vstd::prelude::*;

use crate::naming::{archive_name_of, parse_archive_name};
use crate::tree::{changed_part, snapshot_of, tree_wf, FileEntry};

verus! {

pub open spec fn strictly_increasing(s: Seq<u64>) -> bool {
    forall|i: int, j: int| 0 <= i < j < s.len() ==> s[i] < s[j]
}

/// `t` is the timestamp of an archive named in `names`.
pub open spec fn names_archive(names: Seq<String>, t: u64) -> bool {
    exists|i: int| 0 <= i < names.len() && names[i]@ == archive_name_of(t as nat)
}

fn insert_sorted(v: &mut Vec<u64>, t: u64)
    requires
        strictly_increasing(old(v)@),
    ensures
        strictly_increasing(final(v)@),
        forall|x: u64| final(v)@.contains(x) <==> (old(v)@.contains(x) || x == t),
{
    let mut j: usize = 0;
    while j < v.len() && v[j] < t
        invariant
            v@ == old(v)@,
            j <= v.len(),
            forall|k: int| 0 <= k < j ==> v@[k] < t,
        decreases v.len() - j,
    {
        j = j + 1;
    }
    if j < v.len() && v[j] == t {
        proof {
            assert(v@[j as int] == t);
        }
        return;
    }
    let ghost before = v@;
    v.insert(j, t);
    proof {
        assert forall|a: int, b: int| 0 <= a < b < v@.len() implies v@[a] < v@[b] by {
            if b < j {
            } else if a < j && b == j {
            } else if a < j {
                assert(v@[b] == before[b - 1]);
                if (j as int) < before.len() {
                    assert(before[j as int] >= t);
                    assert(before[j as int] <= before[b - 1] || j as int == b - 1);
                }
            } else if a == j {
                assert(v@[b] == before[b - 1]);
                assert(before[j as int] > t);
                assert(before[j as int] <= before[b - 1] || j as int == b - 1);
            } else {
                assert(v@[a] == before[a - 1] && v@[b] == before[b - 1]);
            }
        }
        assert(before == old(v)@);
        assert forall|x: u64| #[trigger] v@.contains(x) <==> (old(v)@.contains(x) || x == t) by {
            if v@.contains(x) {
                let k = choose|k: int| 0 <= k < v@.len() && v@[k] == x;
                if k < j {
                    assert(before[k] == x);
                } else if k > j {
                    assert(before[k - 1] == x);
                }
            }
            if before.contains(x) {
                let k = choose|k: int| 0 <= k < before.len() && before[k] == x;
                if k < j {
                    assert(v@[k] == x);
                } else {
                    assert(v@[k + 1] == x);
                }
            }
            if x == t {
                assert(v@[j as int] == t);
            }
        }
    }
}

/// The timestamps of the archives named in `names` that were taken at or
/// before `target`, oldest first, each once. Names that are not archive names
/// are ignored.
pub fn versions_to_restore(names: &Vec<String>, target: u64) -> (r: Vec<u64>)
    ensures
        strictly_increasing(r@),
        forall|t: u64| r@.contains(t) <==> (t <= target && names_archive(names@, t)),
{
    let mut r: Vec<u64> = Vec::new();
    let mut i: usize = 0;
    while i < names.len()
        invariant
            i <= names.len(),
            strictly_increasing(r@),
            forall|t: u64| r@.contains(t) <==> (t <= target && names_archive(names@.subrange(0, i as int), t)),
        decreases names.len() - i,
    {
        let parsed = parse_archive_name(names[i].as_str());
        let ghost prev = r@;
        proof {
            let longer = names@.subrange(0, i + 1);
            let shorter = names@.subrange(0, i as int);
            assert forall|t: u64| names_archive(longer, t) <==> (names_archive(shorter, t) || names@[i as int]@ == archive_name_of(t as nat)) by {
                if names_archive(longer, t) {
                    let k = choose|k: int| 0 <= k < longer.len() && #[trigger] longer[k]@ == archive_name_of(t as nat);
                    if k < i {
                        assert(shorter[k] == names@[k]);
                    }
                }
                if names_archive(shorter, t) {
                    let k = choose|k: int| 0 <= k < shorter.len() && #[trigger] shorter[k]@ == archive_name_of(t as nat);
                    assert(longer[k] == names@[k]);
                }
                if names@[i as int]@ == archive_name_of(t as nat) {
                    assert(longer[i as int] == names@[i as int]);
                }
            }
        }
        match parsed {
            Some(t) => {
                if t <= target {
                    insert_sorted(&mut r, t);
                }
                proof {
                    assert forall|x: u64| names@[i as int]@ == archive_name_of(x as nat) implies x == t by {
                        crate::naming::lemma_decimal_injective(x as nat, t as nat);
                    }
                }
            },
            None => {},
        }
        i = i + 1;
    }
    proof {
        assert(names@.subrange(0, names.len() as int) =~= names@);
    }
    r
}

/// The tree, as path to content hash, that unpacking versions storing
/// `deltas` in order reconstructs: a later version's file overwrites an
/// earlier one's.
pub open spec fn replay(deltas: Seq<Map<Seq<char>, Seq<char>>>) -> Map<Seq<char>, Seq<char>>
    decreases deltas.len(),
{
    if deltas.len() == 0 {
        Map::empty()
    } else {
        replay(deltas.drop_last()).union_prefer_right(deltas.last())
    }
}

/// Capturing the trees `trees` one after another, starting with no manifest:
/// the file maps of the versions written, and the manifest left at the end.
pub open spec fn capture_chain(trees: Seq<Seq<FileEntry>>) -> (Seq<Map<Seq<char>, Seq<char>>>, Map<Seq<char>, Seq<char>>)
    decreases trees.len(),
{
    if trees.len() == 0 {
        (Seq::empty(), Map::empty())
    } else {
        let (versions, m) = capture_chain(trees.drop_last());
        let snap = snapshot_of(trees.last());
        (versions.push(changed_part(snap, m)), m.union_prefer_right(snap))
    }
}

/// No tree of the sequence lacks a path that the tree before it had.
pub open spec fn keeps_paths(trees: Seq<Seq<FileEntry>>) -> bool {
    forall|k: int, p: Seq<char>| 0 <= k < trees.len() - 1 && #[trigger] snapshot_of(trees[k]).contains_key(p)
        ==> snapshot_of(trees[k + 1]).contains_key(p)
}

/// Replaying the versions that a chain of captures wrote reconstructs the
/// manifest that the chain left: every file of the last tree comes back with
/// its content hash, and when no capture saw a file disappear, the
/// reconstructed tree is the last tree exactly.
pub proof fn lemma_round_trip(trees: Seq<Seq<FileEntry>>)
    requires
        forall|k: int| 0 <= k < trees.len() ==> tree_wf(#[trigger] trees[k]),
    ensures
        replay(capture_chain(trees).0) == capture_chain(trees).1,
        trees.len() > 0 ==> snapshot_of(trees.last()).submap_of(replay(capture_chain(trees).0)),
        trees.len() > 0 && keeps_paths(trees) ==> replay(capture_chain(trees).0) == snapshot_of(trees.last()),
    decreases trees.len(),
{
    if trees.len() > 0 {
        let init = trees.drop_last();
        assert forall|k: int| 0 <= k < init.len() implies tree_wf(#[trigger] init[k]) by {
            assert(init[k] == trees[k]);
        }
        lemma_round_trip(init);
        let (vs, m) = capture_chain(init);
        let snap = snapshot_of(trees.last());
        assert(capture_chain(trees).0.drop_last() =~= vs);
        assert(m.union_prefer_right(changed_part(snap, m)) =~= m.union_prefer_right(snap));
        assert(snap.submap_of(m.union_prefer_right(snap)));
        if keeps_paths(trees) {
            if init.len() > 0 {
                assert(keeps_paths(init)) by {
                    assert forall|k: int, p: Seq<char>| 0 <= k < init.len() - 1 && #[trigger] snapshot_of(init[k]).contains_key(p)
                        implies snapshot_of(init[k + 1]).contains_key(p) by {
                        assert(init[k] == trees[k] && init[k + 1] == trees[k + 1]);
                    }
                }
                assert(init.last() == trees[trees.len() - 2]);
                assert(m == snapshot_of(init.last()));
                assert forall|p: Seq<char>| m.contains_key(p) implies snap.contains_key(p) by {
                    assert(snapshot_of(trees[trees.len() - 2]).contains_key(p));
                }
                assert(m.union_prefer_right(snap) =~= snap);
            } else {
                assert(m.union_prefer_right(snap) =~= snap);
            }
        }
    }
}

} // verus!
