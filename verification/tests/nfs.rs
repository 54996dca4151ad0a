//! The file server.

use std::collections::HashMap;

use fatxlib::device::MemoryDevice;
use fatxlib::disk::Stamp;
use fatxlib::mkimage::format_image;
use fatxlib::nfs::attrs::{
    cluster_to_id, fatx_to_nfstime, id_to_cluster, month_day_offset, FileKind, NfsStatus, NfsTime,
};
use fatxlib::nfs::server::{merge_write, read_slice, FatxNfs};
use fatxlib::types::{DirectoryEntry, FIRST_CLUSTER};
use fatxlib::volume::FatxVolume;

type Nfs = FatxNfs<MemoryDevice>;

#[test]
fn test_blocks_ds_store() {
    assert!(Nfs::is_macos_metadata(".DS_Store"));
}

#[test]
fn test_blocks_spotlight() {
    assert!(Nfs::is_macos_metadata(".Spotlight-V100"));
}

#[test]
fn test_blocks_trashes() {
    assert!(Nfs::is_macos_metadata(".Trashes"));
}

#[test]
fn test_blocks_fseventsd() {
    assert!(Nfs::is_macos_metadata(".fseventsd"));
}

#[test]
fn test_blocks_resource_fork_prefix() {
    assert!(Nfs::is_macos_metadata("._anything"));
    assert!(Nfs::is_macos_metadata("._Icon\r"));
    assert!(Nfs::is_macos_metadata("._"));
}

#[test]
fn test_allows_normal_files() {
    assert!(!Nfs::is_macos_metadata("game.bin"));
    assert!(!Nfs::is_macos_metadata("Content"));
    assert!(!Nfs::is_macos_metadata(".hidden"));
    assert!(!Nfs::is_macos_metadata("DS_Store"));
}

#[test]
fn test_root_inode_is_one() {
    assert_eq!(FIRST_CLUSTER, 1);
}

#[test]
fn test_cache_structures() {
    let dir_cache: HashMap<u32, Vec<DirectoryEntry>> = HashMap::new();
    let file_cache: HashMap<u32, Vec<u8>> = HashMap::new();
    assert!(dir_cache.is_empty());
    assert!(file_cache.is_empty());
}

// ---------------------------------------------------------------------------
// Requests
// ---------------------------------------------------------------------------

const NOW: NfsTime = NfsTime { seconds: 1_700_000_000, nseconds: 5 };
const STAMP: Stamp = Stamp { date: 0x5A21, time: 0x6C40 };

fn server(readonly: bool) -> Nfs {
    let size = 4 * 1024 * 1024;
    let mut dev = MemoryDevice::new(Vec::new());
    format_image(&mut dev, size as u64, false, 8).expect("format");
    let mut vol = FatxVolume::open(dev, 0, 0).expect("open");
    vol.create_directory("/dir").expect("mkdir");
    vol.create_file("/dir/inner.txt", b"inner").expect("create");
    vol.create_file("/a.txt", b"0123456789").expect("create");
    FatxNfs::new(vol, readonly)
}

fn names(s: &mut Nfs, dir: u64) -> Vec<String> {
    s.readdir(dir, 0, 100, NOW)
        .expect("readdir")
        .entries
        .into_iter()
        .map(|l| l.name)
        .collect()
}

#[test]
fn files_are_found_and_read() {
    let mut s = server(false);
    let root = s.root_dir();
    assert_eq!(root, 1);
    let a = s.lookup(root, b"A.TXT").expect("lookup");
    assert_eq!(s.read(a, 0, 100), Ok((b"0123456789".to_vec(), true)));
    assert_eq!(s.read(a, 3, 4), Ok((b"3456".to_vec(), false)));
    assert_eq!(s.read(a, 6, 4), Ok((b"6789".to_vec(), true)));
    assert_eq!(s.read(a, 10, 4), Ok((Vec::new(), true)));
    assert_eq!(s.lookup(root, b"nope"), Err(NfsStatus::Noent));
    assert_eq!(s.lookup(root, &[0xC3]), Err(NfsStatus::Noent));
    let dir = s.lookup(root, b"dir").expect("lookup");
    let inner = s.lookup(dir, b"inner.txt").expect("lookup");
    assert_eq!(s.read(inner, 0, 3), Ok((b"inn".to_vec(), false)));
    assert_eq!(s.lookup(dir, b".."), Ok(root));
    assert_eq!(s.lookup(dir, b"."), Ok(dir));
}

#[test]
fn attributes_tell_kind_size_and_time() {
    let mut s = server(false);
    let root = s.getattr(1, NOW).expect("root");
    assert_eq!(root.kind, FileKind::Directory);
    assert_eq!(root.fileid, 1);
    assert_eq!(root.mtime, NOW);
    let a = s.lookup(1, b"a.txt").expect("lookup");
    let attr = s.getattr(a, NOW).expect("attr");
    assert_eq!(attr.kind, FileKind::Regular);
    assert_eq!(attr.size, 10);
    assert_eq!(attr.fileid, a);
    let dir = s.lookup(1, b"dir").expect("lookup");
    assert_eq!(s.getattr(dir, NOW).expect("attr").kind, FileKind::Directory);
    assert_eq!(s.getattr(9999, NOW), Err(NfsStatus::Noent));
    assert_eq!(s.setattr(a, NOW), s.getattr(a, NOW));
}

#[test]
fn times_count_from_1970() {
    let at = |y: u16, m: u8, d: u8, h: u8, min: u8, s: u8| {
        fatx_to_nfstime(
            DirectoryEntry::encode_date(y, m, d),
            DirectoryEntry::encode_time(h, min, s),
        )
        .seconds
    };
    assert_eq!(at(1980, 1, 1, 0, 0, 0), 315_532_800);
    assert_eq!(at(2000, 2, 29, 12, 0, 0), 951_825_600);
    assert_eq!(at(2000, 3, 1, 0, 0, 0), 951_868_800);
    assert_eq!(at(2024, 3, 15, 14, 30, 22), 1_710_513_022);
    assert_eq!(at(2025, 12, 31, 23, 59, 58), 1_767_225_598);
    assert_eq!(month_day_offset(1, 2024), 0);
    assert_eq!(month_day_offset(3, 2024), 60);
    assert_eq!(month_day_offset(3, 2023), 59);
    assert_eq!(month_day_offset(12, 2023), 334);
}

#[test]
fn what_is_written_is_read_back() {
    let mut s = server(false);
    let a = s.lookup(1, b"a.txt").expect("lookup");
    let attr = s.write(a, 4, b"XY", STAMP, NOW).expect("write");
    assert_eq!(attr.size, 10);
    let a = s.lookup(1, b"a.txt").expect("lookup");
    assert_eq!(s.read(a, 0, 100), Ok((b"0123XY6789".to_vec(), true)));
    // A gap is filled with zeros.
    s.write(a, 12, b"Z", STAMP, NOW).expect("write");
    let a = s.lookup(1, b"a.txt").expect("lookup");
    assert_eq!(s.read(a, 8, 100), Ok((b"89\0\0Z".to_vec(), true)));
    let dir = s.lookup(1, b"dir").expect("lookup");
    assert!(s.write(dir, 0, b"x", STAMP, NOW).is_err());
    assert_eq!(merge_write(b"abc", 1, b"XX"), b"aXX".to_vec());
    assert_eq!(merge_write(b"abc", 5, b"d"), b"abc\0\0d".to_vec());
    assert_eq!(read_slice(b"abc", 1, 1), (b"b".to_vec(), false));
}

#[test]
fn files_come_and_go() {
    let mut s = server(false);
    let (id, attr) = s.create(1, b"new.bin", STAMP).expect("create");
    assert_eq!(attr.size, 0);
    assert_eq!(s.lookup(1, b"new.bin"), Ok(id));
    let (dir, attr) = s.mkdir(1, b"sub", STAMP).expect("mkdir");
    assert_eq!(attr.kind, FileKind::Directory);
    assert_eq!(names(&mut s, dir), vec![".", ".."]);
    s.rename(1, b"new.bin", 1, b"old.bin").expect("rename");
    assert_eq!(s.lookup(1, b"new.bin"), Err(NfsStatus::Noent));
    assert_eq!(s.rename(1, b"old.bin", dir, b"x"), Err(NfsStatus::NotSupp));
    s.remove(1, b"old.bin").expect("remove");
    assert_eq!(s.remove(1, b"old.bin"), Err(NfsStatus::Io));
    assert_eq!(s.remove(1, &[0xFF]), Err(NfsStatus::Inval));
    assert_eq!(names(&mut s, 1), vec![".", "..", "dir", "a.txt", "sub"]);
    s.create(dir, b"f", STAMP).expect("create");
    s.remove(dir, b"f").expect("remove");
    s.remove(1, b"sub").expect("remove an empty directory");
    assert_eq!(names(&mut s, 1), vec![".", "..", "dir", "a.txt"]);
    assert_eq!(s.symlink(), Err(NfsStatus::NotSupp));
    assert_eq!(s.readlink(), Err(NfsStatus::NotSupp));
}

#[test]
fn a_directory_goes_with_all_that_is_in_it() {
    let mut s = server(false);
    let (outer, _) = s.mkdir(1, b"outer", STAMP).expect("mkdir");
    let (inner, _) = s.mkdir(outer, b"inner", STAMP).expect("mkdir");
    let (file, _) = s.create(inner, b"f", STAMP).expect("create");
    s.write(file, 0, b"deep", STAMP, NOW).expect("write");
    assert_eq!(names(&mut s, outer), vec![".", "..", "inner"]);
    assert_eq!(names(&mut s, inner), vec![".", "..", "f"]);
    s.remove(1, b"outer").expect("remove a directory that is not empty");
    assert_eq!(names(&mut s, 1), vec![".", "..", "dir", "a.txt"]);
    assert_eq!(s.lookup(1, b"outer"), Err(NfsStatus::Noent));
    // The clusters are free again, and nothing is remembered of what was in them.
    let (again, _) = s.mkdir(1, b"again", STAMP).expect("mkdir");
    assert_eq!(again, outer);
    assert_eq!(names(&mut s, again), vec![".", ".."]);
}

#[test]
fn exclusive_creation_keeps_what_is_there() {
    let mut s = server(false);
    assert_eq!(s.create_exclusive(1, b"A.txt", STAMP), Err(NfsStatus::Exist));
    let a = s.lookup(1, b"a.txt").expect("lookup");
    assert_eq!(s.read(a, 0, 100), Ok((b"0123456789".to_vec(), true)));
    s.create_exclusive(1, b"fresh", STAMP).expect("create");
    assert!(s.lookup(1, b"fresh").is_ok());
}

#[test]
fn metadata_of_macos_is_refused() {
    let mut s = server(false);
    assert_eq!(s.create(1, b".DS_Store", STAMP), Err(NfsStatus::Perm));
    assert_eq!(s.create(1, b"._a.txt", STAMP), Err(NfsStatus::Perm));
    assert_eq!(s.mkdir(1, b".Trashes", STAMP), Err(NfsStatus::Perm));
    assert_eq!(s.create(1, &[0xFF], STAMP), Err(NfsStatus::Inval));
}

#[test]
fn read_only_volumes_refuse_changes() {
    let mut s = server(true);
    assert!(s.is_readonly());
    assert_eq!(s.check_writable(), Err(NfsStatus::Rofs));
    let a = s.lookup(1, b"a.txt").expect("lookup");
    assert_eq!(s.write(a, 0, b"x", STAMP, NOW), Err(NfsStatus::Rofs));
    assert_eq!(s.create(1, b"x", STAMP), Err(NfsStatus::Rofs));
    assert_eq!(s.create_exclusive(1, b"x", STAMP), Err(NfsStatus::Rofs));
    assert_eq!(s.mkdir(1, b"x", STAMP), Err(NfsStatus::Rofs));
    assert_eq!(s.remove(1, b"a.txt"), Err(NfsStatus::Rofs));
    assert_eq!(s.rename(1, b"a.txt", 1, b"b.txt"), Err(NfsStatus::Rofs));
    assert_eq!(s.read(a, 0, 100), Ok((b"0123456789".to_vec(), true)));
}

#[test]
fn long_listings_come_in_pages() {
    let mut s = server(false);
    for i in 0..10u8 {
        s.create(1, format!("f{}", i).as_bytes(), STAMP).expect("create");
    }
    let all = names(&mut s, 1);
    assert_eq!(all.len(), 14);
    let mut seen: Vec<String> = Vec::new();
    let mut after: u64 = 0;
    loop {
        let page = s.readdir(1, after, 5, NOW).expect("readdir");
        assert!(page.entries.len() <= 5);
        for line in &page.entries {
            seen.push(line.name.clone());
            after = line.fileid;
        }
        if page.end {
            break;
        }
    }
    assert_eq!(seen, all);
}

#[test]
fn file_identifiers_stand_for_clusters() {
    assert_eq!(cluster_to_id(1), 1);
    assert_eq!(id_to_cluster(1), 1);
    for c in [1u32, 2, 77, 65535, u32::MAX] {
        assert_eq!(id_to_cluster(cluster_to_id(c)), c);
    }
}
