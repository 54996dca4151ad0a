//! Laws of attributes: what the server says of a file is what is there.

use vstd::prelude::*;
use vstd::utf8::decode_utf8;
use crate::disk::Disk;
use crate::laws::granting::law_file_bytes;
use crate::nfs::attrs::{
    cluster_of_id, entry_attr, nfs_time, packed_seconds, FileAttr, FileKind, NfsStatus, NfsTime,
};
use crate::nfs::laws::law_lookup_makes_attributes_known;
use crate::nfs::server::{find_by_cluster, NfsView};
use crate::nfs::storage::{lemma_found_by_cluster, lemma_learned_again};
use crate::types::DirentView;

verus! {

// ---------------------------------------------------------------------------
// Fields
// ---------------------------------------------------------------------------

/// The attributes of an entry: files and directories are told apart, a file has one link and a
/// directory two, all belong to the same user, and the size is the entry's size in full.
#[verifier::spinoff_prover]
#[verifier::rlimit(40)]
pub proof fn law_attributes(e: DirentView)
    ensures
        ({
            let a = entry_attr(e);
            &&& a.kind == FileKind::Directory <==> e.attributes.bits / 16 % 2 == 1
            &&& a.kind == FileKind::Directory ==> a.mode == 0o755 && a.nlink == 2
            &&& a.kind == FileKind::Regular ==> a.mode == 0o644 && a.nlink == 1
            &&& a.uid == 501 && a.gid == 20 && a.fsid == 1
            &&& a.size == e.file_size
            &&& a.used == e.file_size
            &&& a.fileid == e.first_cluster
            &&& a.atime == nfs_time(e.access_date, e.access_time)
            &&& a.mtime == nfs_time(e.write_date, e.write_time)
            &&& a.ctime == nfs_time(e.creation_date, e.creation_time)
        }),
{
    let b = e.attributes.bits;
    assert(b & 0x10 == 0x10 <==> b / 16 % 2 == 1) by (bit_vector);
}

/// The root directory is a directory like any other, and as old as the moment it is asked for.
pub proof fn law_root_attributes(s: NfsView, now: NfsTime)
    ensures
        ({
            let (s2, r) = s.getattr(1, now);
            let a = r->Ok_0;
            &&& s2 == s && r is Ok
            &&& a.kind == FileKind::Directory && a.mode == 0o755 && a.nlink == 2
            &&& a.uid == 501 && a.gid == 20 && a.fsid == 1
            &&& a.size == 0 && a.used == 0 && a.fileid == 1
            &&& a.atime == now && a.mtime == now && a.ctime == now
        }),
{
}

/// An identifier has the attributes of an entry that starts at its cluster, the first one in
/// the directory it was seen in. If it was seen nowhere, or is there no more, there is no such
/// file.
#[verifier::spinoff_prover]
#[verifier::rlimit(40)]
pub proof fn law_attributes_by_id(s: NfsView, id: u64, now: NfsTime)
    requires
        2 <= id <= u32::MAX,
    ensures
        !s.parents.dom().contains(id as u32) ==> s.getattr(id, now) == (
            s,
            Err::<FileAttr, NfsStatus>(NfsStatus::Noent),
        ),
        s.parents.dom().contains(id as u32) ==> {
            let (s2, listed) = s.dir_entries(s.parents[id as u32].0);
            let entries = listed->Ok_0;
            &&& s.getattr(id, now).0 == s2
            &&& match s.getattr(id, now).1 {
                Ok(a) => listed is Ok && exists|k: int|
                    #![trigger entries[k]]
                    0 <= k < entries.len() && entries[k].first_cluster == id && a == entry_attr(
                        entries[k],
                    ) && forall|m: int| 0 <= m < k ==> (#[trigger] entries[m]).first_cluster != id,
                Err(NfsStatus::Noent) => listed is Ok && forall|m: int|
                    0 <= m < entries.len() ==> (#[trigger] entries[m]).first_cluster != id,
                Err(x) => listed == Err::<Seq<DirentView>, NfsStatus>(x),
            }
        },
{
    let c = id as u32;
    assert(cluster_of_id(id) == c);
    if s.parents.dom().contains(c) {
        if s.dir_entries(s.parents[c].0).1 is Ok {
            let entries = s.dir_entries(s.parents[c].0).1->Ok_0;
            lemma_first_at(entries, c);
        }
    }
}

/// The first entry that starts at a cluster, told by its index.
proof fn lemma_first_at(entries: Seq<DirentView>, cluster: u32)
    ensures
        match find_by_cluster(entries, cluster) {
            Some(e) => exists|k: int|
                #![trigger entries[k]]
                0 <= k < entries.len() && entries[k].first_cluster == cluster && e == entries[k]
                    && forall|m: int|
                    0 <= m < k ==> (#[trigger] entries[m]).first_cluster != cluster,
            None => forall|m: int|
                0 <= m < entries.len() ==> (#[trigger] entries[m]).first_cluster != cluster,
        },
    decreases entries.len(),
{
    if entries.len() > 0 {
        if entries[0].first_cluster != cluster {
            let rest = entries.drop_first();
            lemma_first_at(rest, cluster);
            assert forall|m: int| 1 <= m < entries.len() implies entries[m] == #[trigger] rest[m
                - 1] by {}
            if find_by_cluster(rest, cluster) is Some {
                let k = choose|k: int|
                    #![trigger rest[k]]
                    0 <= k < rest.len() && rest[k].first_cluster == cluster && find_by_cluster(
                        rest,
                        cluster,
                    ) == Some(rest[k]) && forall|m: int|
                        0 <= m < k ==> (#[trigger] rest[m]).first_cluster != cluster;
                assert(entries[k + 1] == rest[k]);
                assert forall|m: int| 0 <= m < k + 1 implies (
                #[trigger] entries[m]).first_cluster != cluster by {
                    if m > 0 {
                        assert(rest[m - 1] == entries[m]);
                    }
                }
            } else {
                assert forall|m: int| 0 <= m < entries.len() implies (
                #[trigger] entries[m]).first_cluster != cluster by {
                    if m > 0 {
                        assert(rest[m - 1] == entries[m]);
                    }
                }
            }
        } else {
            assert(entries[0].first_cluster == cluster);
        }
    }
}

// ---------------------------------------------------------------------------
// Sizes
// ---------------------------------------------------------------------------

/// An entry that has been found by its cluster starts there, and is found again.
proof fn lemma_found_again(s: NfsView, cluster: u32)
    requires
        s.entry_of(cluster).1 is Ok,
    ensures
        ({
            let (s2, found) = s.entry_of(cluster);
            &&& found->Ok_0.first_cluster == cluster
            &&& s2.entry_of(cluster) == (s2, found)
            &&& s2.disk == s.disk
            &&& s2.files == s.files
        }),
{
    let p = s.parents[cluster].0;
    let s2 = s.entry_of(cluster).0;
    let entries = s.dir_entries(p).1->Ok_0;
    lemma_found_by_cluster(entries, cluster);
    if !s.dirs.dom().contains(p) {
        lemma_learned_again(s.parents, p, entries, 0, cluster);
    }
    assert(s2.parents[cluster].0 == p);
    assert(s2.dirs[p] == entries);
}

/// A file whose attributes have been given is read from its entry.
#[verifier::spinoff_prover]
#[verifier::rlimit(40)]
proof fn lemma_read_once_known(s: NfsView, id: u64, c: u32, now: NfsTime)
    requires
        id != 1,
        c == cluster_of_id(id),
        s.getattr(id, now).1 is Ok,
        !s.files.dom().contains(c),
    ensures
        ({
            let (s2, r) = s.getattr(id, now);
            let e = s.entry_of(c).1->Ok_0;
            &&& e.first_cluster == c
            &&& r->Ok_0.size == e.file_size
            &&& r->Ok_0.kind == FileKind::Regular ==> !e.is_directory()
            &&& s.disk.read_file(e) is Ok ==> s2.contents(c).1 == Ok::<Seq<u8>, NfsStatus>(
                s.disk.read_file(e)->Ok_0,
            )
        }),
{
    lemma_found_again(s, c);
}

/// How many bytes a file has.
proof fn lemma_length(d: Disk, e: DirentView)
    requires
        1 <= d.geo.sectors_per_cluster,
        !e.is_directory(),
        d.chain(e.first_cluster) is Ok,
        ({
            let chain = d.chain(e.first_cluster)->Ok_0;
            forall|k: int| 0 <= k < chain.len() ==> d.read_cluster(#[trigger] chain[k]) is Ok
        }),
    ensures
        ({
            let room = d.chain(e.first_cluster)->Ok_0.len() * (512 * d.geo.sectors_per_cluster);
            &&& d.read_file(e) is Ok
            &&& e.file_size <= room ==> d.read_file(e)->Ok_0.len() == e.file_size
            &&& e.file_size > room ==> d.read_file(e)->Ok_0.len() == room
        }),
{
    law_file_bytes(d, e, 0);
}

proof fn lemma_id(id: u64)
    requires
        id <= u32::MAX,
    ensures
        cluster_of_id(id) == id as u32,
{
}

proof fn lemma_size_is_length(s: NfsView, id: u64, c: u32, now: NfsTime)
    requires
        id != 1,
        c == cluster_of_id(id),
        1 <= s.disk.geo.sectors_per_cluster,
        s.getattr(id, now).1 is Ok,
        s.getattr(id, now).1->Ok_0.kind == FileKind::Regular,
        !s.files.dom().contains(c),
        s.disk.chain(c) is Ok,
        ({
            let chain = s.disk.chain(c)->Ok_0;
            forall|k: int| 0 <= k < chain.len() ==> s.disk.read_cluster(#[trigger] chain[k]) is Ok
        }),
    ensures
        ({
            let (s2, r) = s.getattr(id, now);
            let size = r->Ok_0.size;
            let room = s.disk.chain(c)->Ok_0.len() * (512
                * s.disk.geo.sectors_per_cluster);
            let data = s2.contents(c).1->Ok_0;
            &&& s2.contents(c).1 is Ok
            &&& size <= room ==> data.len() == size
            &&& size > room ==> data.len() == room
        }),
{
    let e = s.entry_of(c).1->Ok_0;
    assert(s.getattr(id, now).1 is Ok);
    lemma_read_once_known(s, id, c, now);
    lemma_length(s.disk, e);
}

/// The size that the server gives for a file is the number of bytes that the whole file has
/// when it is read there, for files of every length. Only where the chain of a damaged file ends
/// before its size, there are as many bytes as the chain has.
pub proof fn law_size_is_length(s: NfsView, id: u64, now: NfsTime)
    requires
        2 <= id <= u32::MAX,
        1 <= s.disk.geo.sectors_per_cluster,
        s.getattr(id, now).1 is Ok,
        s.getattr(id, now).1->Ok_0.kind == FileKind::Regular,
        !s.files.dom().contains(id as u32),
        s.disk.chain(id as u32) is Ok,
        ({
            let chain = s.disk.chain(id as u32)->Ok_0;
            forall|k: int| 0 <= k < chain.len() ==> s.disk.read_cluster(#[trigger] chain[k]) is Ok
        }),
    ensures
        ({
            let (s2, r) = s.getattr(id, now);
            let size = r->Ok_0.size;
            let room = s.disk.chain(id as u32)->Ok_0.len() * (512
                * s.disk.geo.sectors_per_cluster);
            let data = s2.contents(id as u32).1->Ok_0;
            &&& s2.contents(id as u32).1 is Ok
            &&& size <= room ==> data.len() == size
            &&& size > room ==> data.len() == room
        }),
{
    lemma_id(id);
    lemma_size_is_length(s, id, id as u32, now);
}

/// What has been looked up has attributes, and their size is the number of bytes that reading
/// the whole file gives.
pub proof fn law_looked_up_size(s: NfsView, dirid: u64, filename: Seq<u8>, now: NfsTime)
    requires
        1 <= s.disk.geo.sectors_per_cluster,
        !s.dirs.dom().contains(cluster_of_id(dirid)),
        decode_utf8(filename) != "."@,
        decode_utf8(filename) != ".."@,
        s.lookup(dirid, filename).1 is Ok,
        s.lookup(dirid, filename).1->Ok_0 >= 2,
        ({
            let id = s.lookup(dirid, filename).1->Ok_0;
            let chain = s.disk.chain(id as u32)->Ok_0;
            &&& !s.files.dom().contains(id as u32)
            &&& s.disk.chain(id as u32) is Ok
            &&& forall|k: int| 0 <= k < chain.len() ==> s.disk.read_cluster(#[trigger] chain[k]) is Ok
        }),
    ensures
        ({
            let (s1, found) = s.lookup(dirid, filename);
            let id = found->Ok_0;
            let (s2, r) = s1.getattr(id, now);
            let room = s.disk.chain(id as u32)->Ok_0.len() * (512
                * s.disk.geo.sectors_per_cluster);
            &&& r is Ok
            &&& r->Ok_0.kind == FileKind::Regular && r->Ok_0.size <= room ==> s2.contents(
                id as u32,
            ).1 is Ok && s2.contents(id as u32).1->Ok_0.len() == r->Ok_0.size
        }),
{
    law_lookup_makes_attributes_known(s, dirid, filename, now);
    let (s1, found) = s.lookup(dirid, filename);
    let id = found->Ok_0;
    lemma_lookup_keeps(s, dirid, filename);
    if s1.getattr(id, now).1->Ok_0.kind == FileKind::Regular {
        law_size_is_length(s1, id, now);
    }
}

proof fn lemma_lookup_keeps(s: NfsView, dirid: u64, filename: Seq<u8>)
    ensures
        s.lookup(dirid, filename).0.disk == s.disk,
        s.lookup(dirid, filename).0.files == s.files,
        decode_utf8(filename) != "."@ && decode_utf8(filename) != ".."@ && s.lookup(
            dirid,
            filename,
        ).1 is Ok ==> s.lookup(dirid, filename).1->Ok_0 <= u32::MAX,
{
}

/// What has been read once is remembered, and reading it again gives the same.
pub proof fn law_contents_are_remembered(s: NfsView, cluster: u32)
    requires
        s.contents(cluster).1 is Ok,
    ensures
        ({
            let (s2, r) = s.contents(cluster);
            &&& s2.contents(cluster) == (s2, r)
            &&& s2.disk == s.disk
        }),
{
}

/// What is not remembered is read from the volume: the file of the entry that is found, and an
/// error of input and output if it cannot be read, as a directory cannot.
pub proof fn law_contents_from_the_volume(s: NfsView, cluster: u32)
    requires
        !s.files.dom().contains(cluster),
    ensures
        ({
            let (s1, found) = s.entry_of(cluster);
            let e = found->Ok_0;
            let (s2, r) = s.contents(cluster);
            &&& found is Err ==> s2 == s1 && r == Err::<Seq<u8>, NfsStatus>(found->Err_0)
            &&& found is Ok && e.is_directory() ==> r == Err::<Seq<u8>, NfsStatus>(NfsStatus::Io)
            &&& found is Ok && s.disk.read_file(e) is Err ==> s2 == s1 && r == Err::<
                Seq<u8>,
                NfsStatus,
            >(NfsStatus::Io)
            &&& found is Ok && s.disk.read_file(e) is Ok ==> r == Ok::<Seq<u8>, NfsStatus>(
                s.disk.read_file(e)->Ok_0,
            )
        }),
{
    let (s1, found) = s.entry_of(cluster);
    assert(s1.disk == s.disk);
    if found is Ok {
        crate::laws::granting::law_readable_is_a_file(s.disk, found->Ok_0);
    }
}

/// The parts of a file that a client reads: byte for byte its contents from the offset on, no
/// more than were asked for and none that are not there, and whether they reach its end.
#[verifier::spinoff_prover]
#[verifier::rlimit(40)]
pub proof fn law_read_at_server(s: NfsView, id: u64, offset: u64, count: u32)
    requires
        id <= u32::MAX,
    ensures
        ({
            let (s1, whole) = s.contents(id as u32);
            let (s2, r) = s.read(id, offset, count);
            let all = whole->Ok_0;
            let (part, end) = r->Ok_0;
            &&& s2 == s1
            &&& r is Ok <==> whole is Ok
            &&& whole is Err ==> r->Err_0 == whole->Err_0
            &&& whole is Ok ==> {
                &&& part.len() <= count
                &&& offset <= all.len() ==> offset + part.len() <= all.len()
                &&& part.len() < count ==> offset + part.len() >= all.len()
                &&& forall|i: int| 0 <= i < part.len() ==> #[trigger] part[i] == all[offset + i]
                &&& end <==> offset + count >= all.len()
            }
        }),
{
    assert(cluster_of_id(id) == id as u32);
}

// ---------------------------------------------------------------------------
// Times
// ---------------------------------------------------------------------------

/// How many days a month has.
pub open spec fn month_days(year: int, month: int) -> int {
    if month == 2 {
        if year % 4 == 0 && year % 100 != 0 || year % 400 == 0 { 29 } else { 28 }
    } else if month == 4 || month == 6 || month == 9 || month == 11 {
        30
    } else {
        31
    }
}

/// How many days of a year are over when a month begins.
pub open spec fn days_to_month(year: int, month: int) -> int
    decreases month,
{
    if month <= 1 {
        0
    } else {
        days_to_month(year, month - 1) + month_days(year, month - 1)
    }
}

/// How many days lie between the beginning of 1970 and that of a year.
pub open spec fn days_to_year(year: int) -> int
    decreases year - 1970,
{
    if year <= 1970 {
        0
    } else {
        days_to_year(year - 1) + days_to_month(year - 1, 12) + month_days(year - 1, 12)
    }
}

proof fn lemma_days_to_month(year: int, month: int)
    requires
        1 <= month <= 12,
    ensures
        days_to_month(year, month) == crate::nfs::attrs::month_offset(month, year),
    decreases month,
{
    if month > 1 {
        lemma_days_to_month(year, month - 1);
    }
}

proof fn lemma_days_to_year(year: int)
    requires
        1970 <= year <= 2100,
    ensures
        days_to_year(year) == (year - 1970) * 365 + (year - 1969) / 4,
    decreases year,
{
    if year > 1970 {
        lemma_days_to_year(year - 1);
        lemma_days_to_month(year - 1, 12);
    }
}

/// A date and time are the seconds from the beginning of 1970, by the calendar, as far as 32
/// bits hold them.
///
/// Left out are dates that the calendar does not have, and those after the year 2100, which is
/// taken for a leap year when years are counted.
pub proof fn law_seconds_by_the_calendar(date: u16, time: u16)
    requires
        date / 512 + 1980 <= 2100,
        1 <= date / 32 % 16 <= 12,
        1 <= date % 32,
    ensures
        ({
            let year = date / 512 + 1980;
            let month = date / 32 % 16;
            let day = date % 32;
            let days = days_to_year(year as int) + days_to_month(year as int, month as int) + day
                - 1;
            let seconds = days * 86400 + time / 2048 * 3600 + time / 32 % 64 * 60 + time % 32 * 2;
            &&& nfs_time(date, time).seconds == seconds % 0x1_0000_0000
            &&& nfs_time(date, time).nseconds == 0
        }),
{
    lemma_days_to_year(date / 512 + 1980);
    lemma_days_to_month(date / 512 + 1980, (date / 32 % 16) as int);
}

/// A day and a time within a year, of all years: so many days and seconds after the year began.
pub proof fn law_seconds_within_year(date: u16, time: u16)
    requires
        1 <= date / 32 % 16 <= 12,
        1 <= date % 32,
    ensures
        ({
            let year = date / 512 + 1980;
            let start = (date / 512 * 512 + 33) as u16;
            let days = days_to_month(year as int, (date / 32 % 16) as int) + date % 32 - 1;
            packed_seconds(date, time) == packed_seconds(start, 0) + days * 86400 + time / 2048
                * 3600 + time / 32 % 64 * 60 + time % 32 * 2
        }),
{
    let start = (date / 512 * 512 + 33) as u16;
    assert(start / 512 == date / 512 && start / 32 % 16 == 1 && start % 32 == 1);
    lemma_days_to_month(date / 512 + 1980, (date / 32 % 16) as int);
}

/// From the beginning of a year to that of the next it is 365 days, or 366 if its number can be
/// divided by four.
pub proof fn law_seconds_of_year(years: u16)
    requires
        years < 127,
    ensures
        ({
            let start = (years * 512 + 33) as u16;
            let next = (years * 512 + 512 + 33) as u16;
            packed_seconds(next, 0) - packed_seconds(start, 0) == 86400 * (if years % 4 == 0 {
                366int
            } else {
                365
            })
        }),
{
    let start = (years * 512 + 33) as u16;
    let next = (years * 512 + 512 + 33) as u16;
    assert(start / 512 == years && start / 32 % 16 == 1 && start % 32 == 1);
    assert(next / 512 == years + 1 && next / 32 % 16 == 1 && next % 32 == 1);
}

/// A date without a day counts as the first of its month, and one without a month as one in
/// January.
pub proof fn law_incomplete_dates(date: u16, time: u16)
    ensures
        date % 32 == 0 ==> nfs_time(date, time) == nfs_time((date + 1) as u16, time),
        date / 32 % 16 == 0 ==> nfs_time(date, time) == nfs_time((date + 32) as u16, time),
{
    if date % 32 == 0 {
        let d = (date + 1) as u16;
        assert(d / 512 == date / 512 && d / 32 % 16 == date / 32 % 16 && d % 32 == 1);
    }
    if date / 32 % 16 == 0 {
        let d = (date + 32) as u16;
        assert(d / 512 == date / 512 && d / 32 % 16 == 1 && d % 32 == date % 32);
    }
}

} // verus!
