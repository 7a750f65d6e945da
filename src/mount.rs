//! The table of file systems mounted from device files, and how a path's
//! status is obtained.
use vstd::prelude::*;
use crate::consts::{EINVAL, ENOENT};

verus! {

/// A path, as characters. A directory path ends with `/`.
pub struct FilePath {
    pub path: Vec<char>,
}

pub open spec fn is_dir_path(p: Seq<char>) -> bool {
    p.len() > 0 && p.last() == '/'
}

pub open spec fn has_prefix(s: Seq<char>, pre: Seq<char>) -> bool {
    pre.len() <= s.len() && s.subrange(0, pre.len() as int) == pre
}

pub open spec fn has_suffix(s: Seq<char>, suf: Seq<char>) -> bool {
    suf.len() <= s.len() && s.subrange(s.len() - suf.len(), s.len() as int) == suf
}

/// Whether `s` starts with `pre`.
pub fn starts_with(s: &Vec<char>, pre: &Vec<char>) -> (r: bool)
    ensures
        r == has_prefix(s@, pre@),
{
    if pre.len() > s.len() {
        return false;
    }
    let mut i: usize = 0;
    while i < pre.len()
        invariant
            pre@.len() <= s@.len(),
            i <= pre@.len(),
            forall|j: int| 0 <= j < i ==> s@[j] == pre@[j],
        decreases pre@.len() - i,
    {
        if s[i] != pre[i] {
            assert(s@.subrange(0, pre@.len() as int)[i as int] != pre@[i as int]);
            return false;
        }
        i += 1;
    }
    assert(s@.subrange(0, pre@.len() as int) =~= pre@);
    true
}

/// Whether `s` ends with `suf`.
pub fn ends_with(s: &Vec<char>, suf: &Vec<char>) -> (r: bool)
    ensures
        r == has_suffix(s@, suf@),
{
    if suf.len() > s.len() {
        return false;
    }
    let n = s.len();
    let base = n - suf.len();
    let mut i: usize = 0;
    while i < suf.len()
        invariant
            n == s@.len(),
            suf@.len() <= s@.len(),
            base == s@.len() - suf@.len(),
            i <= suf@.len(),
            forall|j: int| 0 <= j < i ==> s@[base + j] == suf@[j],
        decreases suf@.len() - i,
    {
        if s[base + i] != suf[i] {
            assert(s@.subrange(base as int, s@.len() as int)[i as int] != suf@[i as int]);
            return false;
        }
        i += 1;
    }
    assert(s@.subrange(base as int, s@.len() as int) =~= suf@);
    true
}

fn copy_chars(s: &Vec<char>) -> (r: Vec<char>)
    ensures
        r@ == s@,
{
    let mut out: Vec<char> = Vec::new();
    let mut i: usize = 0;
    while i < s.len()
        invariant
            i <= s@.len(),
            out@ == s@.subrange(0, i as int),
        decreases s@.len() - i,
    {
        out.push(s[i]);
        i += 1;
        assert(out@ =~= s@.subrange(0, i as int));
    }
    assert(out@ =~= s@);
    out
}

impl FilePath {
    pub open spec fn view(&self) -> Seq<char> {
        self.path@
    }

    pub fn is_dir(&self) -> (r: bool)
        ensures
            r == is_dir_path(self.view()),
    {
        self.path.len() > 0 && self.path[self.path.len() - 1] == '/'
    }

    pub fn is_file(&self) -> (r: bool)
        ensures
            r == !is_dir_path(self.view()),
    {
        !self.is_dir()
    }

    pub fn duplicate(&self) -> (r: FilePath)
        ensures
            r.view() == self.view(),
    {
        FilePath { path: copy_chars(&self.path) }
    }

    pub fn equal_to(&self, other: &FilePath) -> (r: bool)
        ensures
            r == (self.view() == other.view()),
    {
        if self.path.len() != other.path.len() {
            return false;
        }
        let r = starts_with(&self.path, &other.path);
        assert(self.path@.subrange(0, other.path@.len() as int) =~= self.path@);
        r
    }

    pub fn start_with(&self, prefix: &FilePath) -> (r: bool)
        ensures
            r == has_prefix(self.view(), prefix.view()),
    {
        starts_with(&self.path, &prefix.path)
    }
}

/// A file system mounted from a device file onto a directory.
pub struct MountedFs {
    pub device: FilePath,
    pub mnt_dir: FilePath,
}

impl MountedFs {
    /// A mount of the file `device` onto the directory `mnt_dir`.
    pub fn new(device: &FilePath, mnt_dir: &FilePath) -> (r: Self)
        requires
            !is_dir_path(device.view()),
            is_dir_path(mnt_dir.view()),
        ensures
            r.device.view() == device.view(),
            r.mnt_dir.view() == mnt_dir.view(),
    {
        MountedFs { device: device.duplicate(), mnt_dir: mnt_dir.duplicate() }
    }

    pub fn device(&self) -> (r: FilePath)
        ensures
            r.view() == self.device.view(),
    {
        self.device.duplicate()
    }

    pub fn mnt_dir(&self) -> (r: FilePath)
        ensures
            r.view() == self.mnt_dir.view(),
    {
        self.mnt_dir.duplicate()
    }
}

/// The mounted file systems, in the order they were mounted. The file system
/// the system started on is not among them.
pub struct MountTable {
    pub mounted: Vec<MountedFs>,
}

impl MountTable {
    /// The (device, directory) pairs in mount order.
    pub open spec fn view(&self) -> Seq<(Seq<char>, Seq<char>)> {
        self.mounted@.map_values(|m: MountedFs| (m.device.view(), m.mnt_dir.view()))
    }

    pub fn new() -> (r: Self)
        ensures
            r.view() == Seq::<(Seq<char>, Seq<char>)>::empty(),
    {
        let r = MountTable { mounted: Vec::new() };
        assert(r.view() =~= Seq::<(Seq<char>, Seq<char>)>::empty());
        r
    }
}

/// Mounts the device file `device_path` onto `mount_path` when that directory
/// exists (`mount_path_exists`, as the file system reports it). Returns whether
/// it was mounted.
pub fn mount_fat_fs(table: &mut MountTable, device_path: &FilePath, mount_path: &FilePath, mount_path_exists: bool) -> (r: bool)
    requires
        !is_dir_path(device_path.view()),
        is_dir_path(mount_path.view()),
    ensures
        r == mount_path_exists,
        r ==> final(table).view() == old(table).view().push((device_path.view(), mount_path.view())),
        !r ==> final(table).view() == old(table).view(),
{
    if mount_path_exists {
        let m = MountedFs::new(device_path, mount_path);
        table.mounted.push(m);
        assert(table.view() =~= old(table).view().push((device_path.view(), mount_path.view())));
        return true;
    }
    false
}

/// Unmounts the first file system mounted onto `mount_path`. Returns whether
/// there was one.
pub fn umount_fat_fs(table: &mut MountTable, mount_path: &FilePath) -> (r: bool)
    ensures
        r == exists|i: int| 0 <= i < old(table).view().len() && (#[trigger] old(table).view()[i]).1 == mount_path.view(),
        r ==> exists|i: int| {
            &&& 0 <= i < old(table).view().len()
            &&& (#[trigger] old(table).view()[i]).1 == mount_path.view()
            &&& forall|j: int| 0 <= j < i ==> (#[trigger] old(table).view()[j]).1 != mount_path.view()
            &&& final(table).view() == old(table).view().remove(i)
        },
        !r ==> final(table).view() == old(table).view(),
{
    let mut i: usize = 0;
    while i < table.mounted.len()
        invariant
            table.view() == old(table).view(),
            table.view().len() == table.mounted@.len(),
            i <= table.mounted@.len(),
            forall|j: int| 0 <= j < i ==> (#[trigger] table.view()[j]).1 != mount_path.view(),
        decreases table.mounted@.len() - i,
    {
        if table.mounted[i].mnt_dir.equal_to(mount_path) {
            let ghost before = table.view();
            assert(before[i as int].1 == mount_path.view());
            table.mounted.remove(i);
            assert(table.view() =~= before.remove(i as int));
            return true;
        }
        i += 1;
    }
    false
}

/// Whether `path` lies under the directory of some mounted file system.
pub fn check_mounted(table: &MountTable, path: &FilePath) -> (r: bool)
    ensures
        r == exists|i: int| 0 <= i < table.view().len() && has_prefix(path.view(), (#[trigger] table.view()[i]).1),
{
    let mut i: usize = 0;
    while i < table.mounted.len()
        invariant
            table.view().len() == table.mounted@.len(),
            i <= table.mounted@.len(),
            forall|j: int| 0 <= j < i ==> !has_prefix(path.view(), (#[trigger] table.view()[j]).1),
        decreases table.mounted@.len() - i,
    {
        if path.start_with(&table.mounted[i].mnt_dir) {
            assert(has_prefix(path.view(), table.view()[i as int].1));
            return true;
        }
        i += 1;
    }
    false
}

/// What kind of node the file system holds at a path.
#[derive(Clone, Copy, Debug, PartialEq, Eq, Structural)]
pub enum NodeKind {
    /// A directory of the device or RAM file system.
    VirtualDir,
    /// The zero or null device.
    NullOrZeroDevice,
    /// A file of the RAM file system.
    RamFile,
    /// Anything else.
    Other,
}

/// How the status of a path is obtained.
#[derive(Clone, Copy, Debug, PartialEq, Eq, Structural)]
pub enum StatSource {
    /// A directory path under the virtual trees: device 2, no link counted.
    VirtualDir,
    /// A directory that the lookup found: device 2 and one link.
    FoundDir,
    /// A character device with one link.
    CharDevice,
    /// A regular file with one link and the node's size.
    RamFile,
    /// The status of the file opened at the path (`ENOENT` if it does not open).
    OpenFile,
    /// The status of the directory opened at the path (`ENOENT` if it does not open).
    OpenDir,
}

pub open spec fn in_virtual_tree(p: Seq<char>) -> bool {
    has_prefix(p, seq!['/', 'v', 'a', 'r']) || has_prefix(p, seq!['/', 'd', 'e', 'v'])
        || has_prefix(p, seq!['/', 't', 'm', 'p'])
}

/// The source of the status of `path`, given the kind of node that a lookup
/// of it found (`None` when the lookup failed). Paths under `/var`, `/dev` and
/// `/tmp` are answered from the virtual file systems where they can be; any
/// other path is opened, as a directory when it ends with `/` or with the name of the
/// headers directory.
pub open spec fn stat_source_of(p: Seq<char>, node: Option<NodeKind>) -> StatSource {
    if in_virtual_tree(p) && is_dir_path(p) {
        StatSource::VirtualDir
    } else if in_virtual_tree(p) && node == Some(NodeKind::VirtualDir) {
        StatSource::FoundDir
    } else if in_virtual_tree(p) && node == Some(NodeKind::NullOrZeroDevice) {
        StatSource::CharDevice
    } else if in_virtual_tree(p) && node == Some(NodeKind::RamFile) {
        StatSource::RamFile
    } else if !is_dir_path(p) && !has_suffix(p, seq!['i', 'n', 'c', 'l', 'u', 'd', 'e']) {
        StatSource::OpenFile
    } else {
        StatSource::OpenDir
    }
}

/// Where the status of `path` comes from; see [`stat_source_of`]. The lookup
/// result matters only under `/var`, `/dev` and `/tmp`.
pub fn get_stat_in_fs(path: &FilePath, node: Option<NodeKind>) -> (r: StatSource)
    ensures
        r == stat_source_of(path.view(), node),
{
    let p = &path.path;
    let var = vec!['/', 'v', 'a', 'r'];
    let dev = vec!['/', 'd', 'e', 'v'];
    let tmp = vec!['/', 't', 'm', 'p'];
    let headers = vec!['i', 'n', 'c', 'l', 'u', 'd', 'e'];
    assert(var@ =~= seq!['/', 'v', 'a', 'r']);
    assert(dev@ =~= seq!['/', 'd', 'e', 'v']);
    assert(tmp@ =~= seq!['/', 't', 'm', 'p']);
    assert(headers@ =~= seq!['i', 'n', 'c', 'l', 'u', 'd', 'e']);
    if starts_with(p, &var) || starts_with(p, &dev) || starts_with(p, &tmp) {
        if path.is_dir() {
            return StatSource::VirtualDir;
        }
        match node {
            Some(NodeKind::VirtualDir) => {
                return StatSource::FoundDir;
            },
            Some(NodeKind::NullOrZeroDevice) => {
                return StatSource::CharDevice;
            },
            Some(NodeKind::RamFile) => {
                return StatSource::RamFile;
            },
            _ => {},
        }
    }
    if !path.is_dir() && !ends_with(p, &headers) {
        StatSource::OpenFile
    } else {
        StatSource::OpenDir
    }
}

/// File-type bits of a status mode: directory.
pub const S_IFDIR: u32 = 0o040000;
/// File-type bits of a status mode: character device.
pub const S_IFCHR: u32 = 0o020000;
/// File-type bits of a status mode: regular file.
pub const S_IFREG: u32 = 0o100000;
/// Permission bits given to the nodes of the virtual trees: owner read and
/// write, group and others read.
pub const NORMAL_PERM: u32 = 0o644;

/// The status of a file: the fields this library fills; a consumer sets the
/// others to zero.
#[derive(Clone, Copy, Debug, PartialEq, Eq, Structural)]
pub struct FileStat {
    pub st_dev: u64,
    pub st_mode: u32,
    pub st_nlink: u32,
    pub st_size: u64,
}

/// What happened when the path was opened and its status read.
#[derive(Clone, Copy, Debug, PartialEq, Eq, Structural)]
pub enum OpenOutcome {
    /// The path could not be opened.
    NotOpened,
    /// It opened, but its status could not be read.
    StatFailed,
    /// It opened and this is its status.
    Stat(FileStat),
}

/// The status of a path: built from `source` for the virtual trees (a RAM
/// file reports `node_size`), otherwise taken from `opened`, with `ENOENT` when
/// the path did not open and `EINVAL` when its status could not be read.
pub fn stat_result(source: StatSource, node_size: u64, opened: OpenOutcome) -> (r: Result<FileStat, isize>)
    ensures
        source == StatSource::VirtualDir ==> r == Ok::<FileStat, isize>(
            FileStat { st_dev: 2, st_mode: S_IFDIR | NORMAL_PERM, st_nlink: 0, st_size: 0 },
        ),
        source == StatSource::FoundDir ==> r == Ok::<FileStat, isize>(
            FileStat { st_dev: 2, st_mode: S_IFDIR | NORMAL_PERM, st_nlink: 1, st_size: 0 },
        ),
        source == StatSource::CharDevice ==> r == Ok::<FileStat, isize>(
            FileStat { st_dev: 0, st_mode: S_IFCHR | NORMAL_PERM, st_nlink: 1, st_size: 0 },
        ),
        source == StatSource::RamFile ==> r == Ok::<FileStat, isize>(
            FileStat { st_dev: 0, st_mode: S_IFREG | NORMAL_PERM, st_nlink: 1, st_size: node_size },
        ),
        (source == StatSource::OpenFile || source == StatSource::OpenDir) ==> r == match opened {
            OpenOutcome::NotOpened => Err::<FileStat, isize>(ENOENT),
            OpenOutcome::StatFailed => Err::<FileStat, isize>(EINVAL),
            OpenOutcome::Stat(st) => Ok::<FileStat, isize>(st),
        },
{
    match source {
        StatSource::VirtualDir => Ok(FileStat { st_dev: 2, st_mode: S_IFDIR | NORMAL_PERM, st_nlink: 0, st_size: 0 }),
        StatSource::FoundDir => Ok(FileStat { st_dev: 2, st_mode: S_IFDIR | NORMAL_PERM, st_nlink: 1, st_size: 0 }),
        StatSource::CharDevice => Ok(FileStat { st_dev: 0, st_mode: S_IFCHR | NORMAL_PERM, st_nlink: 1, st_size: 0 }),
        StatSource::RamFile => Ok(FileStat { st_dev: 0, st_mode: S_IFREG | NORMAL_PERM, st_nlink: 1, st_size: node_size }),
        StatSource::OpenFile | StatSource::OpenDir => match opened {
            OpenOutcome::NotOpened => Err(ENOENT),
            OpenOutcome::StatFailed => Err(EINVAL),
            OpenOutcome::Stat(st) => Ok(st),
        },
    }
}

} // verus!
