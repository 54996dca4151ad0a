//! What the server gives back of what it was given: a write at the server, and a read after
//! it.

use vstd::prelude::*;
use crate::disk::{Disk, Stamp};
use crate::error::ErrView;
use crate::laws::granting::law_created_file;
use crate::laws::sound_creation::{
    law_file_created_soundly, lemma_sound_directory, lemma_sound_target,
};
use crate::laws::sound_removal::{law_file_deleted_soundly, sole_entry, without_chain};
use crate::laws::soundness::{leads_into, lemma_directory_readable, sound, Layout};
use crate::nfs::attrs::{cluster_of_id, nfs_time, FileKind, NfsStatus, NfsTime, ROOT_FILEID};
use crate::nfs::laws::law_write_then_read;
use crate::nfs::server::{files_without, find_by_cluster, learned, merged, slice_of, NfsView};
use crate::path::{name_of, parent_of};
use crate::types::{DirentView, FIRST_CLUSTER};

verus! {

/// What is found by its cluster is in the listing, and starts there.
pub proof fn lemma_found_by_cluster(entries: Seq<DirentView>, cluster: u32)
    ensures
        find_by_cluster(entries, cluster) matches Some(e) ==> entries.contains(e)
            && e.first_cluster == cluster,
    decreases entries.len(),
{
    if entries.len() > 0 && entries[0].first_cluster != cluster {
        let rest = entries.drop_first();
        lemma_found_by_cluster(rest, cluster);
        if find_by_cluster(rest, cluster) is Some {
            let e = find_by_cluster(rest, cluster)->0;
            let k = choose|k: int| 0 <= k < rest.len() && rest[k] == e;
            assert(entries[k + 1] == e);
        }
    }
    if entries.len() > 0 && entries[0].first_cluster == cluster {
        assert(entries.contains(entries[0]));
    }
}

/// What was seen in a directory is still known to be there when the directory is listed again.
pub proof fn lemma_learned_again(
    parents: Map<u32, (u32, Seq<char>)>,
    dir: u32,
    entries: Seq<DirentView>,
    i: int,
    cluster: u32,
)
    requires
        0 <= i,
        parents.dom().contains(cluster),
        parents[cluster].0 == dir,
    ensures
        learned(parents, dir, entries, i).dom().contains(cluster),
        learned(parents, dir, entries, i)[cluster].0 == dir,
    decreases entries.len() - i,
{
    if i < entries.len() {
        lemma_learned_again(
            parents.insert(entries[i].first_cluster, (dir, entries[i].filename())),
            dir,
            entries,
            i + 1,
            cluster,
        );
    }
}

/// What has been forgotten stays forgotten.
pub proof fn lemma_still_forgotten(
    files: Map<u32, Seq<u8>>,
    entries: Seq<DirentView>,
    i: int,
    cluster: u32,
)
    requires
        0 <= i,
        !files.dom().contains(cluster),
    ensures
        !files_without(files, entries, i).dom().contains(cluster),
    decreases entries.len() - i,
{
    if i < entries.len() {
        lemma_still_forgotten(files.remove(entries[i].first_cluster), entries, i + 1, cluster);
    }
}

/// The server has seen a file where it is: its path leads to it, and its directory is the one
/// it was seen in. No other entry leads to the same clusters.
pub open spec fn in_its_place(s: NfsView, l: Layout, cluster: u32) -> bool {
    let (s1, found) = s.entry_of(cluster);
    let e = found->Ok_0;
    let p = s.parents[cluster].0;
    let path = s1.path_of(p as u64, e.filename());
    &&& s.parents.dom().contains(cluster)
    &&& found is Ok
    &&& !e.is_directory()
    &&& e.first_cluster == cluster
    &&& name_of(path).len() > 0
    &&& s.disk.resolve(path) == Ok::<DirentView, ErrView>(e)
    &&& s.disk.resolve(parent_of(path)) is Ok
    &&& s.disk.resolve(parent_of(path))->Ok_0.is_directory()
    &&& s.disk.resolve(parent_of(path))->Ok_0.first_cluster == p
    &&& sole_entry(s.disk, l, p, name_of(path), cluster)
}

/// The contents of a file before a write: those remembered, or those on the disk.
pub open spec fn contents_before(s: NfsView, cluster: u32) -> Result<Seq<u8>, ErrView> {
    if s.files.dom().contains(cluster) {
        Ok(s.files[cluster])
    } else {
        s.disk.read_file(s.entry_of(cluster).1->Ok_0)
    }
}

/// Once a file has been rewritten, its identifier leads to the new contents.
proof fn lemma_reads_from(s: NfsView, cluster: u32, p: u32, e: DirentView, data: Seq<u8>)
    requires
        s.parents.dom().contains(cluster),
        s.parents[cluster].0 == p,
        !s.files.dom().contains(cluster),
        !s.dirs.dom().contains(p),
        s.disk.entries(p) is Ok,
        find_by_cluster(s.disk.entries(p)->Ok_0, cluster) == Some(e),
        s.disk.read_file(e) == Ok::<Seq<u8>, ErrView>(data),
    ensures
        ({
            let (s2, found) = s.entry_of(cluster);
            &&& found == Ok::<DirentView, NfsStatus>(e)
            &&& s2.contents(cluster).1 == Ok::<Seq<u8>, NfsStatus>(data)
        }),
{
    let entries = s.disk.entries(p)->Ok_0;
    lemma_learned_again(s.parents, p, entries, 0, cluster);
    let s2 = s.entry_of(cluster).0;
    assert(s2.dirs[p] == entries);
    assert(s2.dir_entries(p) == (s2, Ok::<Seq<DirentView>, NfsStatus>(entries)));
}

/// The first free cluster of a volume can be read.
pub open spec fn first_free_readable(d: Disk) -> bool {
    d.read_cluster(d.free_from(FIRST_CLUSTER as int, 1)->Ok_0[0]) is Ok
}

/// The entry of a file with these contents that was made at that moment.
spec fn is_file_of(e: DirentView, data: Seq<u8>, stamp: Stamp) -> bool {
    &&& !e.is_directory()
    &&& e.file_size == data.len()
    &&& e.write_date == stamp.date && e.write_time == stamp.time
}

/// Deleting a file of a sound volume and creating it anew: whatever its directory lists at its
/// old cluster is the new file.
proof fn lemma_file_replaced(d0: Disk, l: Layout, path: Seq<char>, all: Seq<u8>, stamp: Stamp)
    requires
        sound(d0, l),
        name_of(path).len() > 0,
        d0.resolve(path) is Ok,
        !d0.resolve(path)->Ok_0.is_directory(),
        d0.resolve(parent_of(path)) is Ok,
        d0.resolve(parent_of(path))->Ok_0.is_directory(),
        sole_entry(
            d0,
            l,
            d0.resolve(parent_of(path))->Ok_0.first_cluster,
            name_of(path),
            d0.resolve(path)->Ok_0.first_cluster,
        ),
        all.len() <= u32::MAX,
        all.len() == 0 ==> first_free_readable(d0.delete(path).0),
        d0.delete(path).0.create_file(path, all, stamp).1 is Ok,
    ensures
        ({
            let d = d0.delete(path).0.create_file(path, all, stamp).0;
            let p = d0.resolve(parent_of(path))->Ok_0.first_cluster;
            let cluster = d0.resolve(path)->Ok_0.first_cluster;
            &&& cluster != FIRST_CLUSTER
            &&& d.entries(p) is Ok
            &&& find_by_cluster(d.entries(p)->Ok_0, cluster) matches Some(x) ==> d.read_file(x)
                == Ok::<Seq<u8>, ErrView>(all) && is_file_of(x, all, stamp)
        }),
{
    let p = d0.resolve(parent_of(path))->Ok_0.first_cluster;
    let cluster = d0.resolve(path)->Ok_0.first_cluster;
    lemma_sound_directory(d0, l, parent_of(path));
    lemma_sound_target(d0, l, path);
    law_file_deleted_soundly(d0, l, path);
    let gone = d0.delete(path).0;
    let l2 = without_chain(l, cluster);
    let d = gone.create_file(path, all, stamp).0;
    let l3 = law_file_created_soundly(gone, l2, path, all, stamp);
    law_created_file(gone, l2, path, all, stamp);
    let fresh = d.resolve(path)->Ok_0;
    assert(l2.dirs.contains(p));
    assert(l3.dirs.contains(p));
    lemma_directory_readable(d, l3, p);
    let entries = d.entries(p)->Ok_0;
    lemma_found_by_cluster(entries, cluster);
    if find_by_cluster(entries, cluster) is Some {
        let x = find_by_cluster(entries, cluster)->0;
        let k = choose|k: int| 0 <= k < entries.len() && entries[k] == x;
        assert(leads_into(l3, d.entries(p)->Ok_0[k]));
        assert(!l2.chains.dom().contains(cluster));
        assert(l3.chains.dom().contains(cluster));
        assert(x.first_cluster == fresh.first_cluster);
        assert(l3.dirs.contains(p) && d.entries(p)->Ok_0[k] == fresh);
    }
}

/// The steps of a write that succeeds.
proof fn lemma_write_steps(
    s: NfsView,
    l: Layout,
    id: u64,
    offset: u64,
    data: Seq<u8>,
    stamp: Stamp,
    now: NfsTime,
)
    requires
        in_its_place(s, l, cluster_of_id(id)),
        s.write(id, offset, data, stamp, now).1 is Ok,
    ensures
        ({
            let cluster = cluster_of_id(id);
            let (s1, found) = s.entry_of(cluster);
            let p = s.parents[cluster].0;
            let path = s1.path_of(p as u64, found->Ok_0.filename());
            let before = contents_before(s, cluster);
            let all = merged(before->Ok_0, offset, data);
            let (d, made) = s.disk.delete(path).0.create_file(path, all, stamp);
            &&& before is Ok
            &&& made is Ok
            &&& s.write(id, offset, data, stamp, now) == s1.with_disk(d).forget_file(
                cluster,
            ).forget_dir(p).getattr(id, now)
        }),
{
    let cluster = cluster_of_id(id);
    let s1 = s.entry_of(cluster).0;
    assert(s1.disk == s.disk);
    assert(s1.files == s.files);
}

/// What the server knows after it has rewritten a file: where it was seen, and nothing of its
/// contents or its directory.
proof fn lemma_forgotten(s: NfsView, s1: NfsView, d: Disk, cluster: u32, p: u32)
    requires
        s.parents.dom().contains(cluster),
        s.parents[cluster].0 == p,
        s1 == s.entry_of(cluster).0,
    ensures
        ({
            let s3 = s1.with_disk(d).forget_file(cluster).forget_dir(p);
            &&& s3.disk == d
            &&& s3.parents.dom().contains(cluster)
            &&& s3.parents[cluster].0 == p
            &&& !s3.files.dom().contains(cluster)
            &&& !s3.dirs.dom().contains(p)
        }),
{
    if !s.dirs.dom().contains(p) && s.disk.entries(p) is Ok {
        lemma_learned_again(s.parents, p, s.disk.entries(p)->Ok_0, 0, cluster);
    }
    if s1.dirs.dom().contains(p) {
        lemma_still_forgotten(s1.files.remove(cluster), s1.dirs[p], 0, cluster);
    }
}

/// A file whose attributes have been given can be read.
proof fn lemma_reads_after(
    s: NfsView,
    id: u64,
    now: NfsTime,
    p: u32,
    all: Seq<u8>,
    stamp: Stamp,
)
    requires
        cluster_of_id(id) != FIRST_CLUSTER,
        s.getattr(id, now).1 is Ok,
        s.parents.dom().contains(cluster_of_id(id)),
        s.parents[cluster_of_id(id)].0 == p,
        !s.files.dom().contains(cluster_of_id(id)),
        !s.dirs.dom().contains(p),
        s.disk.entries(p) is Ok,
        find_by_cluster(s.disk.entries(p)->Ok_0, cluster_of_id(id)) matches Some(x)
            ==> s.disk.read_file(x) == Ok::<Seq<u8>, ErrView>(all) && is_file_of(x, all, stamp),
    ensures
        s.getattr(id, now).0.contents(cluster_of_id(id)).1 == Ok::<Seq<u8>, NfsStatus>(all),
        s.getattr(id, now).1->Ok_0.size == all.len(),
        s.getattr(id, now).1->Ok_0.kind == FileKind::Regular,
        s.getattr(id, now).1->Ok_0.mtime == nfs_time(stamp.date, stamp.time),
{
    let cluster = cluster_of_id(id);
    assert(id != ROOT_FILEID);
    let entries = s.disk.entries(p)->Ok_0;
    assert(s.entry_of(cluster).1 is Ok);
    lemma_reads_from(s, cluster, p, find_by_cluster(entries, cluster)->0, all);
}

/// What has been written to a file at the server is read back there: after a write that
/// succeeds, a read of the same identifier gives the old contents with the new bytes in their
/// place. The attributes that the write gives have the length of those contents as the size, and
/// the moment of the write as the time of the last change.
///
/// Left out are files that the server has not seen where they are, files with more than one
/// entry, files of more than 4 GiB after the write, and empty ones whose cluster lies behind the
/// end of the device.
pub proof fn law_written_at_server_reads_back(
    s: NfsView,
    l: Layout,
    id: u64,
    offset: u64,
    data: Seq<u8>,
    stamp: Stamp,
    now: NfsTime,
    from: u64,
    count: u32,
)
    requires
        sound(s.disk, l),
        in_its_place(s, l, cluster_of_id(id)),
        s.write(id, offset, data, stamp, now).1 is Ok,
        merged(contents_before(s, cluster_of_id(id))->Ok_0, offset, data).len() <= u32::MAX,
        merged(contents_before(s, cluster_of_id(id))->Ok_0, offset, data).len() == 0
            ==> first_free_readable(s.deleted(id)),
    ensures
        contents_before(s, cluster_of_id(id)) is Ok,
        ({
            let a = s.write(id, offset, data, stamp, now).1->Ok_0;
            let before = contents_before(s, cluster_of_id(id))->Ok_0;
            &&& a.kind == FileKind::Regular
            &&& before.len() >= offset + data.len() ==> a.size == before.len()
            &&& before.len() < offset + data.len() ==> a.size == offset + data.len()
            &&& a.mtime == nfs_time(stamp.date, stamp.time)
        }),
        s.write(id, offset, data, stamp, now).0.contents(cluster_of_id(id)).1 == Ok::<
            Seq<u8>,
            NfsStatus,
        >(merged(contents_before(s, cluster_of_id(id))->Ok_0, offset, data)),
        s.write(id, offset, data, stamp, now).0.read(id, from, count).1 == Ok::<
            (Seq<u8>, bool),
            NfsStatus,
        >(
            slice_of(
                merged(contents_before(s, cluster_of_id(id))->Ok_0, offset, data),
                from,
                count,
            ),
        ),
        from == offset && count == data.len() && count > 0 ==> s.write(
            id,
            offset,
            data,
            stamp,
            now,
        ).0.read(id, from, count).1->Ok_0.0 == data,
{
    let cluster = cluster_of_id(id);
    let (s1, found) = s.entry_of(cluster);
    let e = found->Ok_0;
    let p = s.parents[cluster].0;
    let path = s1.path_of(p as u64, e.filename());
    let before = contents_before(s, cluster);
    lemma_write_steps(s, l, id, offset, data, stamp, now);
    let all = merged(before->Ok_0, offset, data);
    lemma_file_replaced(s.disk, l, path, all, stamp);
    let d = s.disk.delete(path).0.create_file(path, all, stamp).0;
    let s3 = s1.with_disk(d).forget_file(cluster).forget_dir(p);
    lemma_forgotten(s, s1, d, cluster, p);
    lemma_reads_after(s3, id, now, p, all, stamp);
    if from == offset && count == data.len() && count > 0 {
        law_write_then_read(before->Ok_0, offset, data, count);
    }
}

} // verus!
