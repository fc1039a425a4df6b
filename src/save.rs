//! Saves, the instances that hold them, and the roots that instances are
//! found under; and where a save's backups and recoveries go.

use vstd::prelude::*;

use crate::manifest::Manifest;
use crate::naming::{archive_name, archive_name_of, decimal};
use crate::tree::{tree_wf, FileEntry};
use crate::version::{capture, captures, CapturePlan};

verus! {

/// How many leading characters of `p` reach up to and including its last
/// `/` (none: 0).
pub open spec fn last_slash_end(p: Seq<char>) -> nat
    decreases p.len(),
{
    if p.len() == 0 {
        0
    } else if p.last() == '/' {
        p.len()
    } else {
        last_slash_end(p.drop_last())
    }
}

/// The last component of the path `p`.
pub open spec fn file_name_of(p: Seq<char>) -> Seq<char> {
    p.subrange(last_slash_end(p) as int, p.len() as int)
}

/// The directory part of the path `p`, with its trailing `/`.
pub open spec fn dir_prefix(p: Seq<char>) -> Seq<char> {
    p.subrange(0, last_slash_end(p) as int)
}

proof fn lemma_last_slash_end_bound(p: Seq<char>)
    ensures
        last_slash_end(p) <= p.len(),
    decreases p.len(),
{
    if p.len() > 0 && p.last() != '/' {
        lemma_last_slash_end_bound(p.drop_last());
    }
}

/// Where the last `/` of `path` ends.
fn split_point(path: &str) -> (r: usize)
    ensures
        r == last_slash_end(path@),
{
    let n = path.unicode_len();
    let mut k: usize = n;
    proof {
        assert(path@.subrange(0, n as int) =~= path@);
    }
    while k > 0 && path.get_char(k - 1) != '/'
        invariant
            n == path@.len(),
            k <= n,
            last_slash_end(path@) == last_slash_end(path@.subrange(0, k as int)),
        decreases k,
    {
        proof {
            assert(path@.subrange(0, k as int).drop_last() =~= path@.subrange(0, k - 1));
        }
        k = k - 1;
    }
    proof {
        if k == 0 {
            assert(path@.subrange(0, 0) =~= Seq::<char>::empty());
        }
    }
    k
}

/// The last component of the path `path`.
pub fn file_name(path: &str) -> (r: String)
    ensures
        r@ == file_name_of(path@),
{
    proof {
        lemma_last_slash_end_bound(path@);
    }
    let k = split_point(path);
    let n = path.unicode_len();
    String::from_str(path.substring_char(k, n))
}

/// A Minecraft world directory tracked for backup.
#[derive(Debug)]
pub struct MinecraftSave {
    pub instance_name: String,
    pub name: String,
    pub image: Option<String>,
    pub path: String,
    pub description: String,
}

impl MinecraftSave {
    /// The save `name` of the instance `instance_name`, stored at `path`.
    pub fn new(instance_name: String, name: String, path: String, image: Option<String>) -> (r: MinecraftSave)
        ensures
            r.instance_name == instance_name,
            r.name == name,
            r.path@ == path@,
            r.image == image,
            r.description@ == Seq::<char>::empty(),
    {
        MinecraftSave { instance_name, name, image, path, description: String::new() }
    }

    /// The directory that holds the save's versions and manifest:
    /// `<backup_root>/<instance>/<save>`.
    pub fn backup_dir(&self, backup_root: &str) -> (r: String)
        ensures
            r@ == backup_root@ + seq!['/'] + self.instance_name@ + seq!['/'] + self.name@,
    {
        let mut r = String::from_str(backup_root);
        r.append("/");
        r.append(self.instance_name.as_str());
        r.append("/");
        r.append(self.name.as_str());
        proof {
            reveal_strlit("/");
        }
        r
    }

    /// The fresh directory a recovery at `now_ms` stages into, beside the
    /// save: `<parent>/<save>-recover-<now_ms>`.
    pub fn recovery_dir(&self, now_ms: u64) -> (r: String)
        ensures
            r@ == dir_prefix(self.path@) + self.name@ + seq!['-', 'r', 'e', 'c', 'o', 'v', 'e', 'r', '-'] + decimal(
                now_ms as nat,
            ),
    {
        proof {
            lemma_last_slash_end_bound(self.path@);
        }
        let k = split_point(self.path.as_str());
        let mut r = String::from_str(self.path.as_str().substring_char(0, k));
        r.append(self.name.as_str());
        r.append("-recover-");
        let stamp = crate::naming::u64_decimal(now_ms);
        r.append(stamp.as_str());
        proof {
            reveal_strlit("-recover-");
            assert(r@ =~= dir_prefix(self.path@) + self.name@ + seq!['-', 'r', 'e', 'c', 'o', 'v', 'e', 'r', '-'] + decimal(now_ms as nat));
        }
        r
    }

    /// Decides the backup of this save taken at `timestamp`, of the tree
    /// `files` scanned from its path, against the manifest of its last
    /// backup (none before the first one).
    pub fn backup(&self, previous: Option<&Manifest>, timestamp: u64, files: &Vec<FileEntry>) -> (r: CapturePlan)
        requires
            previous matches Some(m) ==> m.wf(),
            tree_wf(files@),
        ensures
            captures(
                match previous {
                    Some(m) => Some(m@),
                    None => None,
                },
                files@,
                archive_name_of(timestamp as nat),
                self.path@,
                r,
            ),
    {
        capture(previous, archive_name(timestamp), self.path.clone(), files)
    }
}

pub open spec fn name_key() -> Seq<char> {
    seq!['n', 'a', 'm', 'e', '=']
}

/// `line` is a `name=` setting.
pub open spec fn is_name_line(line: Seq<char>) -> bool {
    line.len() >= 5 && line.subrange(0, 5) == name_key()
}

/// The instance name that the lines `lines` of an `instance.cfg` set: the
/// value of the last `name=` line, or nothing.
pub open spec fn cfg_name(lines: Seq<Seq<char>>) -> Seq<char>
    decreases lines.len(),
{
    if lines.len() == 0 {
        Seq::empty()
    } else if is_name_line(lines.last()) {
        lines.last().subrange(5, lines.last().len() as int)
    } else {
        cfg_name(lines.drop_last())
    }
}

/// The instance name set by the lines of an `instance.cfg` file.
pub fn instance_cfg_name(lines: &Vec<String>) -> (r: String)
    ensures
        r@ == cfg_name(lines@.map_values(|l: String| l@)),
{
    let ghost views = lines@.map_values(|l: String| l@);
    let key = String::from_str("name=");
    proof {
        reveal_strlit("name=");
        assert(key@ =~= name_key());
    }
    let mut i: usize = lines.len();
    proof {
        assert(views.subrange(0, i as int) =~= views);
    }
    while i > 0
        invariant
            i <= lines.len(),
            views == lines@.map_values(|l: String| l@),
            key@ == name_key(),
            cfg_name(views) == cfg_name(views.subrange(0, i as int)),
        decreases i,
    {
        let line = lines[i - 1].as_str();
        let n = line.unicode_len();
        proof {
            assert(views.subrange(0, i as int).drop_last() =~= views.subrange(0, i - 1));
            assert(views.subrange(0, i as int).last() == line@);
        }
        if n >= 5 {
            let head = String::from_str(line.substring_char(0, 5));
            if head == key {
                return String::from_str(line.substring_char(5, n));
            }
        }
        i = i - 1;
    }
    proof {
        assert(views.subrange(0, 0) =~= Seq::<Seq<char>>::empty());
    }
    String::new()
}

/// A directory found under an instance's `saves` directory.
#[derive(Debug)]
pub struct SaveDir {
    pub path: String,
    /// It holds an `icon.png`.
    pub has_icon: bool,
}

/// Why a scan could not describe what it found.
#[derive(Debug)]
pub enum ScanError {
    /// The save directory's path has no last component to name it by.
    NoSaveName(String),
}

/// How a launcher lays out its instances under a root.
#[derive(Clone, Copy, Debug, PartialEq, Eq, Structural)]
pub enum MinecraftInstanceType {
    /// The root is one `.minecraft` directory.
    Normal,
    /// Each directory under `versions` is an instance.
    VersionIsolated,
    /// A MultiMC-style `instances` directory.
    MultiMC,
}

/// A game instance and its saves.
#[derive(Debug)]
pub struct MinecraftInstance {
    pub name: String,
    pub dot_minecraft: String,
    pub saves: Vec<MinecraftSave>,
}

/// `s` is the save that the directory `d` of instance `instance` holds.
pub open spec fn save_of_dir(s: MinecraftSave, d: SaveDir, instance: Seq<char>) -> bool {
    &&& s.instance_name@ == instance
    &&& s.name@ == file_name_of(d.path@)
    &&& s.path@ == d.path@
    &&& s.description@ == Seq::<char>::empty()
    &&& (if d.has_icon {
        s.image matches Some(i) && i@ == d.path@ + seq!['/', 'i', 'c', 'o', 'n', '.', 'p', 'n', 'g']
    } else {
        s.image is None
    })
}

/// Some directory of `save_dirs` has no last component to name a save by.
pub open spec fn unnamed_save_dir(save_dirs: Seq<SaveDir>) -> bool {
    exists|i: int| 0 <= i < save_dirs.len() && file_name_of(#[trigger] save_dirs[i].path@).len() == 0
}

/// `e` reports a directory of `save_dirs` without a name.
pub open spec fn names_unnamed_dir(e: ScanError, save_dirs: Seq<SaveDir>) -> bool {
    match e {
        ScanError::NoSaveName(p) => exists|i: int|
            0 <= i < save_dirs.len() && file_name_of(#[trigger] save_dirs[i].path@).len() == 0 && p@ == save_dirs[i].path@,
    }
}

/// `inst` is the instance `name` whose `.minecraft` is `path` and whose saves
/// are those of the directories `save_dirs`, in order.
pub open spec fn normal_instance(inst: MinecraftInstance, path: String, name: String, save_dirs: Seq<SaveDir>) -> bool {
    &&& inst.name == name
    &&& inst.dot_minecraft == path
    &&& inst.saves.len() == save_dirs.len()
    &&& forall|i: int| 0 <= i < save_dirs.len() ==> save_of_dir(#[trigger] inst.saves@[i], save_dirs[i], name@)
}

impl MinecraftInstance {
    /// The instance `name` at `path`, a `.minecraft` directory, whose save
    /// directories are `save_dirs`; each save is named by its directory's
    /// last component.
    pub fn search_normal(path: String, name: String, save_dirs: &Vec<SaveDir>) -> (r: Result<MinecraftInstance, ScanError>)
        ensures
            r is Err <==> unnamed_save_dir(save_dirs@),
            r matches Err(e) ==> names_unnamed_dir(e, save_dirs@),
            r matches Ok(inst) ==> normal_instance(inst, path, name, save_dirs@),
    {
        let mut saves: Vec<MinecraftSave> = Vec::new();
        let mut i: usize = 0;
        while i < save_dirs.len()
            invariant
                i <= save_dirs.len(),
                saves.len() == i,
                forall|k: int| 0 <= k < i ==> file_name_of(#[trigger] save_dirs@[k].path@).len() != 0,
                forall|k: int| 0 <= k < i ==> save_of_dir(#[trigger] saves@[k], save_dirs@[k], name@),
            decreases save_dirs.len() - i,
        {
            let d = &save_dirs[i];
            let save_name = file_name(d.path.as_str());
            if save_name.unicode_len() == 0 {
                return Err(ScanError::NoSaveName(d.path.clone()));
            }
            let image = if d.has_icon {
                let icon = d.path.clone().concat("/icon.png");
                proof {
                    reveal_strlit("/icon.png");
                    assert(icon@ =~= d.path@ + seq!['/', 'i', 'c', 'o', 'n', '.', 'p', 'n', 'g']);
                }
                Some(icon)
            } else {
                None
            };
            let s = MinecraftSave::new(name.clone(), save_name, d.path.clone(), image);
            proof {
                assert(save_of_dir(s, save_dirs@[i as int], name@));
            }
            let ghost before = saves@;
            saves.push(s);
            proof {
                assert forall|k: int| 0 <= k < i + 1 implies save_of_dir(#[trigger] saves@[k], save_dirs@[k], name@) by {
                    if k < i {
                        assert(saves@[k] == before[k]);
                    }
                }
            }
            i = i + 1;
        }
        proof {
            if exists|i: int| 0 <= i < save_dirs.len() && file_name_of(#[trigger] save_dirs@[i].path@).len() == 0 {
                let i = choose|i: int| 0 <= i < save_dirs.len() && file_name_of(#[trigger] save_dirs@[i].path@).len() == 0;
                assert(file_name_of(save_dirs@[i].path@).len() != 0);
            }
        }
        Ok(MinecraftInstance { name, dot_minecraft: path, saves })
    }
}

/// The layout that the flags `multimc` and `version_isolated` select; a
/// MultiMC layout takes precedence over version isolation.
pub open spec fn layout_of(multimc: bool, version_isolated: bool) -> MinecraftInstanceType {
    if multimc {
        MinecraftInstanceType::MultiMC
    } else if version_isolated {
        MinecraftInstanceType::VersionIsolated
    } else {
        MinecraftInstanceType::Normal
    }
}

/// `instances` is what a scan of the root `name` at `path` with layout
/// `layout` yields: for a plain `.minecraft` root, the one instance named
/// after the root, holding the saves of `save_dirs`; otherwise the instances
/// `found` under it.
pub open spec fn scanned_instances(
    layout: MinecraftInstanceType,
    name: String,
    path: String,
    save_dirs: Seq<SaveDir>,
    found: Seq<MinecraftInstance>,
    instances: Seq<MinecraftInstance>,
) -> bool {
    if layout == MinecraftInstanceType::Normal {
        instances.len() == 1 && normal_instance(instances[0], path, name, save_dirs)
    } else {
        instances == found
    }
}

fn scan_instances(
    layout: MinecraftInstanceType,
    name: &String,
    path: &String,
    save_dirs: &Vec<SaveDir>,
    found: Vec<MinecraftInstance>,
) -> (r: Result<Vec<MinecraftInstance>, ScanError>)
    ensures
        r is Err <==> (layout == MinecraftInstanceType::Normal && unnamed_save_dir(save_dirs@)),
        r matches Err(e) ==> names_unnamed_dir(e, save_dirs@),
        r matches Ok(v) ==> scanned_instances(layout, *name, *path, save_dirs@, found@, v@),
{
    match layout {
        MinecraftInstanceType::Normal => {
            match MinecraftInstance::search_normal(path.clone(), name.clone(), save_dirs) {
                Ok(inst) => {
                    let mut v: Vec<MinecraftInstance> = Vec::new();
                    v.push(inst);
                    Ok(v)
                },
                Err(e) => Err(e),
            }
        },
        _ => Ok(found),
    }
}

/// A directory that instances are found under, with the layout it has.
#[derive(Debug)]
pub struct MinecraftInstanceRoot {
    pub name: String,
    pub path: String,
    pub multimc: bool,
    pub version_isolated: bool,
    pub instances: Vec<MinecraftInstance>,
}

impl MinecraftInstanceRoot {
    pub open spec fn layout_view(&self) -> MinecraftInstanceType {
        layout_of(self.multimc, self.version_isolated)
    }

    /// The root `name` at `path` with the instances that scanning it found.
    /// A plain `.minecraft` root holds one instance named after the root,
    /// made from its save directories `save_dirs`; a MultiMC or
    /// version-isolated root holds the instances `found` under it.
    pub fn new(
        name: String,
        path: String,
        multimc: bool,
        version_isolated: bool,
        save_dirs: &Vec<SaveDir>,
        found: Vec<MinecraftInstance>,
    ) -> (r: Result<MinecraftInstanceRoot, ScanError>)
        ensures
            r is Err <==> (layout_of(multimc, version_isolated) == MinecraftInstanceType::Normal && unnamed_save_dir(save_dirs@)),
            r matches Err(e) ==> names_unnamed_dir(e, save_dirs@),
            r matches Ok(root) ==> {
                &&& root.name == name
                &&& root.path == path
                &&& root.multimc == multimc
                &&& root.version_isolated == version_isolated
                &&& scanned_instances(layout_of(multimc, version_isolated), name, path, save_dirs@, found@, root.instances@)
            },
    {
        let layout = if multimc {
            MinecraftInstanceType::MultiMC
        } else if version_isolated {
            MinecraftInstanceType::VersionIsolated
        } else {
            MinecraftInstanceType::Normal
        };
        match scan_instances(layout, &name, &path, save_dirs, found) {
            Ok(instances) => Ok(MinecraftInstanceRoot { name, path, multimc, version_isolated, instances }),
            Err(e) => Err(e),
        }
    }

    /// How the root's instances are laid out, which decides how it is
    /// scanned.
    pub fn layout(&self) -> (r: MinecraftInstanceType)
        ensures
            r == self.layout_view(),
    {
        if self.multimc {
            MinecraftInstanceType::MultiMC
        } else if self.version_isolated {
            MinecraftInstanceType::VersionIsolated
        } else {
            MinecraftInstanceType::Normal
        }
    }

    /// Replaces the instances with those of a new scan of the root, read as
    /// `new` reads them; on an error the root stays as it was.
    pub fn rescan(&mut self, save_dirs: &Vec<SaveDir>, found: Vec<MinecraftInstance>) -> (r: Result<(), ScanError>)
        ensures
            final(self).name == old(self).name,
            final(self).path == old(self).path,
            final(self).multimc == old(self).multimc,
            final(self).version_isolated == old(self).version_isolated,
            r is Err <==> (old(self).layout_view() == MinecraftInstanceType::Normal && unnamed_save_dir(save_dirs@)),
            r matches Err(e) ==> names_unnamed_dir(e, save_dirs@) && final(self).instances == old(self).instances,
            r is Ok ==> scanned_instances(old(self).layout_view(), old(self).name, old(self).path, save_dirs@, found@, final(self).instances@),
    {
        let layout = self.layout();
        match scan_instances(layout, &self.name, &self.path, save_dirs, found) {
            Ok(instances) => {
                self.instances = instances;
                Ok(())
            },
            Err(e) => Err(e),
        }
    }
}

} // verus!
