use axstarry::mount::{
    check_mounted, get_stat_in_fs, mount_fat_fs, umount_fat_fs, FilePath, MountTable, MountedFs,
    stat_result, FileStat, NodeKind, OpenOutcome, StatSource, S_IFCHR, S_IFDIR, S_IFREG,
};
use axstarry::consts::{EINVAL, ENOENT};

fn fp(s: &str) -> FilePath {
    FilePath { path: s.chars().collect() }
}

fn text(p: &FilePath) -> String {
    p.path.iter().collect()
}

#[test]
fn mounted_fs_accessors() {
    let m = MountedFs::new(&fp("/dev/sda"), &fp("/mnt/"));
    assert_eq!(text(&m.device()), "/dev/sda");
    assert_eq!(text(&m.mnt_dir()), "/mnt/");
}

#[test]
fn mount_requires_existing_dir() {
    let mut t = MountTable::new();
    assert!(!mount_fat_fs(&mut t, &fp("/dev/sda"), &fp("/mnt/"), false));
    assert!(t.mounted.is_empty());
    assert!(mount_fat_fs(&mut t, &fp("/dev/sda"), &fp("/mnt/"), true));
    assert_eq!(t.mounted.len(), 1);
}

#[test]
fn check_and_umount() {
    let mut t = MountTable::new();
    assert!(mount_fat_fs(&mut t, &fp("/dev/sda"), &fp("/mnt/"), true));
    assert!(mount_fat_fs(&mut t, &fp("/dev/sdb"), &fp("/data/"), true));
    assert!(check_mounted(&t, &fp("/mnt/a.txt")));
    assert!(!check_mounted(&t, &fp("/home/a.txt")));
    assert!(umount_fat_fs(&mut t, &fp("/mnt/")));
    assert!(!check_mounted(&t, &fp("/mnt/a.txt")));
    assert!(!umount_fat_fs(&mut t, &fp("/mnt/")));
    assert_eq!(t.mounted.len(), 1);
    assert_eq!(text(&t.mounted[0].mnt_dir), "/data/");
}

#[test]
fn file_path_predicates() {
    assert!(fp("/a/").is_dir());
    assert!(fp("/a").is_file());
    assert!(fp("/a/b").start_with(&fp("/a/")));
    assert!(fp("/a/b").equal_to(&fp("/a/b")));
    assert!(!fp("/a/b").equal_to(&fp("/a/c")));
}

#[test]
fn stat_sources() {
    assert_eq!(get_stat_in_fs(&fp("/dev/"), None), StatSource::VirtualDir);
    assert_eq!(get_stat_in_fs(&fp("/dev/null"), Some(NodeKind::NullOrZeroDevice)), StatSource::CharDevice);
    assert_eq!(get_stat_in_fs(&fp("/tmp/x"), Some(NodeKind::RamFile)), StatSource::RamFile);
    assert_eq!(get_stat_in_fs(&fp("/var/log"), Some(NodeKind::VirtualDir)), StatSource::FoundDir);
    assert_eq!(get_stat_in_fs(&fp("/var/log"), None), StatSource::OpenFile);
    assert_eq!(get_stat_in_fs(&fp("/home/a.txt"), Some(NodeKind::RamFile)), StatSource::OpenFile);
    assert_eq!(get_stat_in_fs(&fp("/usr/include"), None), StatSource::OpenDir);
    assert_eq!(get_stat_in_fs(&fp("/home/"), None), StatSource::OpenDir);
}

#[test]
fn stat_results() {
    let dir = stat_result(StatSource::VirtualDir, 0, OpenOutcome::NotOpened).unwrap();
    assert_eq!((dir.st_dev, dir.st_mode, dir.st_nlink), (2, S_IFDIR | 0o644, 0));
    let found = stat_result(StatSource::FoundDir, 0, OpenOutcome::NotOpened).unwrap();
    assert_eq!((found.st_dev, found.st_mode, found.st_nlink), (2, S_IFDIR | 0o644, 1));
    let chr = stat_result(StatSource::CharDevice, 0, OpenOutcome::NotOpened).unwrap();
    assert_eq!((chr.st_mode, chr.st_nlink), (S_IFCHR | 0o644, 1));
    let reg = stat_result(StatSource::RamFile, 77, OpenOutcome::NotOpened).unwrap();
    assert_eq!((reg.st_mode, reg.st_size, reg.st_nlink), (S_IFREG | 0o644, 77, 1));
    assert_eq!(stat_result(StatSource::OpenFile, 0, OpenOutcome::NotOpened), Err(ENOENT));
    assert_eq!(stat_result(StatSource::OpenDir, 0, OpenOutcome::StatFailed), Err(EINVAL));
    let st = FileStat { st_dev: 5, st_mode: S_IFREG | 0o600, st_nlink: 3, st_size: 9 };
    assert_eq!(stat_result(StatSource::OpenFile, 0, OpenOutcome::Stat(st)), Ok(st));
}
