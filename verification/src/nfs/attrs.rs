//! File attributes as NFS clients see them.

use vstd::prelude::*;
use crate::types::{unpack_date, unpack_time, DirectoryEntry, DirentView};

verus! {

/// The file identifier of the root directory.
pub const ROOT_FILEID: u64 = 1;

/// Seconds and nanoseconds since 1970.
#[derive(Debug, Clone, Copy, PartialEq, Eq, Structural)]
pub struct NfsTime {
    pub seconds: u32,
    pub nseconds: u32,
}

/// What a file identifier stands for.
#[derive(Debug, Clone, Copy, PartialEq, Eq, Structural)]
pub enum FileKind {
    Directory,
    Regular,
}

/// The attributes of a file or directory.
#[derive(Debug, Clone, Copy, PartialEq, Eq, Structural)]
pub struct FileAttr {
    pub kind: FileKind,
    pub mode: u32,
    pub nlink: u32,
    pub uid: u32,
    pub gid: u32,
    pub size: u64,
    pub used: u64,
    pub fsid: u64,
    pub fileid: u64,
    pub atime: NfsTime,
    pub mtime: NfsTime,
    pub ctime: NfsTime,
}

/// Why an NFS request is refused.
#[derive(Debug, Clone, Copy, PartialEq, Eq, Structural)]
pub enum NfsStatus {
    /// No such file.
    Noent,
    /// The volume could not be read or written.
    Io,
    /// The file exists already.
    Exist,
    /// The volume is mounted read-only.
    Rofs,
    /// Not allowed.
    Perm,
    /// The request makes no sense.
    Inval,
    /// The file system cannot do this.
    NotSupp,
}

/// The file identifier of what starts at a cluster.
pub fn cluster_to_id(cluster: u32) -> (id: u64)
    ensures
        id == cluster,
{
    cluster as u64
}

/// The cluster of a file identifier: its low 32 bits.
pub open spec fn cluster_of_id(id: u64) -> u32 {
    (id % 0x1_0000_0000) as u32
}

/// The cluster of a file identifier.
pub fn id_to_cluster(id: u64) -> (cluster: u32)
    ensures
        cluster == cluster_of_id(id),
{
    (id % 0x1_0000_0000) as u32
}

/// A file identifier made of a cluster leads back to the cluster.
pub proof fn law_file_ids(cluster: u32)
    ensures
        cluster_of_id(cluster as u64) == cluster,
{
}

/// Days of a common year before a month.
pub open spec fn days_before(month: int) -> int {
    if month == 2 {
        31
    } else if month == 3 {
        59
    } else if month == 4 {
        90
    } else if month == 5 {
        120
    } else if month == 6 {
        151
    } else if month == 7 {
        181
    } else if month == 8 {
        212
    } else if month == 9 {
        243
    } else if month == 10 {
        273
    } else if month == 11 {
        304
    } else if month == 12 {
        334
    } else {
        0
    }
}

/// Whether a year has a 29th of February.
pub open spec fn is_leap(year: int) -> bool {
    year % 4 == 0 && (year % 100 != 0 || year % 400 == 0)
}

/// Days of a year before a month. Months that do not exist have no days before them, but for
/// the leap day that counts for every month above 2.
pub open spec fn month_offset(month: int, year: int) -> int {
    days_before(month) + if month > 2 && is_leap(year) { 1int } else { 0int }
}

/// Days of a year before a month.
pub fn month_day_offset(month: u32, year: u32) -> (days: u32)
    ensures
        days == month_offset(month as int, year as int),
{
    let base: u32 = match month {
        2 => 31,
        3 => 59,
        4 => 90,
        5 => 120,
        6 => 151,
        7 => 181,
        8 => 212,
        9 => 243,
        10 => 273,
        11 => 304,
        12 => 334,
        _ => 0,
    };
    if month > 2 && (year % 4 == 0 && (year % 100 != 0 || year % 400 == 0)) {
        base + 1
    } else {
        base
    }
}

/// Seconds since 1970 of a packed date and time.
pub open spec fn packed_seconds(date: u16, time: u16) -> int {
    let (y, m, d) = unpack_date(date);
    let (h, min, s) = unpack_time(time);
    let days = (y - 1970) * 365 + (y - 1969) / 4 + month_offset(m as int, y as int) + (if d > 0 {
        d - 1
    } else {
        0
    });
    days * 86400 + h * 3600 + min * 60 + s
}

/// A packed date and time as an NFS time, which keeps the low 32 bits of the seconds.
pub open spec fn nfs_time(date: u16, time: u16) -> NfsTime {
    NfsTime { seconds: (packed_seconds(date, time) % 0x1_0000_0000) as u32, nseconds: 0 }
}

/// Makes an NFS time of a packed date and time.
pub fn fatx_to_nfstime(date: u16, time: u16) -> (t: NfsTime)
    ensures
        t == nfs_time(date, time),
{
    let (y, m, d) = DirectoryEntry::decode_date(date);
    let (h, min, s) = DirectoryEntry::decode_time(time);
    let days: u64 = (y as u64 - 1970) * 365 + (y as u64 - 1969) / 4 + month_day_offset(
        m as u32,
        y as u32,
    ) as u64 + (if d > 0 {
        d as u64 - 1
    } else {
        0
    });
    let secs: u64 = days * 86400 + h as u64 * 3600 + min as u64 * 60 + s as u64;
    NfsTime { seconds: (secs % 0x1_0000_0000) as u32, nseconds: 0 }
}

/// The attributes of a directory entry.
pub open spec fn entry_attr(e: DirentView) -> FileAttr {
    FileAttr {
        kind: if e.is_directory() { FileKind::Directory } else { FileKind::Regular },
        mode: if e.is_directory() { 0o755 } else { 0o644 },
        nlink: if e.is_directory() { 2 } else { 1 },
        uid: 501,
        gid: 20,
        size: e.file_size as u64,
        used: e.file_size as u64,
        fsid: 1,
        fileid: e.first_cluster as u64,
        atime: nfs_time(e.access_date, e.access_time),
        mtime: nfs_time(e.write_date, e.write_time),
        ctime: nfs_time(e.creation_date, e.creation_time),
    }
}

/// Makes attributes of a directory entry.
pub fn dirent_to_fattr(entry: &DirectoryEntry) -> (a: FileAttr)
    ensures
        a == entry_attr(entry@),
{
    let is_dir = entry.is_directory();
    FileAttr {
        kind: if is_dir { FileKind::Directory } else { FileKind::Regular },
        mode: if is_dir { 0o755 } else { 0o644 },
        nlink: if is_dir { 2 } else { 1 },
        uid: 501,
        gid: 20,
        size: entry.file_size as u64,
        used: entry.file_size as u64,
        fsid: 1,
        fileid: cluster_to_id(entry.first_cluster),
        atime: fatx_to_nfstime(entry.access_date, entry.access_time),
        mtime: fatx_to_nfstime(entry.write_date, entry.write_time),
        ctime: fatx_to_nfstime(entry.creation_date, entry.creation_time),
    }
}

/// The attributes of the root directory, which has no entry.
pub open spec fn root_attr(now: NfsTime) -> FileAttr {
    FileAttr {
        kind: FileKind::Directory,
        mode: 0o755,
        nlink: 2,
        uid: 501,
        gid: 20,
        size: 0,
        used: 0,
        fsid: 1,
        fileid: ROOT_FILEID,
        atime: now,
        mtime: now,
        ctime: now,
    }
}

/// Makes the attributes of the root directory.
pub fn root_fattr(now: NfsTime) -> (a: FileAttr)
    ensures
        a == root_attr(now),
{
    FileAttr {
        kind: FileKind::Directory,
        mode: 0o755,
        nlink: 2,
        uid: 501,
        gid: 20,
        size: 0,
        used: 0,
        fsid: 1,
        fileid: ROOT_FILEID,
        atime: now,
        mtime: now,
        ctime: now,
    }
}

} // verus!
