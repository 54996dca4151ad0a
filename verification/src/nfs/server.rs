//! The requests of NFS clients, answered from a volume through caches of directories and
//! files.

use std::collections::HashMap;
use vstd::prelude::*;
use vstd::utf8::{decode_utf8, valid_utf8};
use crate::device::Device;
use crate::directory::{entry_views, find_by_name};
use crate::disk::{find_entry, Disk, Stamp};
use crate::error::{ErrView, FatxError};
use crate::nfs::attrs::{
    cluster_of_id, cluster_to_id, dirent_to_fattr, entry_attr, id_to_cluster, root_attr, root_fattr,
    FileAttr, NfsStatus, NfsTime, ROOT_FILEID,
};
use crate::text::{has_prefix, same_text, text_has_prefix, text_of_utf8};
use crate::types::{DirectoryEntry, DirentView, Superblock, FIRST_CLUSTER};
use crate::volume::FatxVolume;

verus! {

// ---------------------------------------------------------------------------
// State
// ---------------------------------------------------------------------------

/// A volume and what is remembered of it.
pub struct FatxNfs<D: Device> {
    vol: FatxVolume<D>,
    /// The entries of directories, by their first cluster.
    dir_cache: HashMap<u32, Vec<DirectoryEntry>>,
    /// The directory of an entry and its name, by its first cluster.
    inode_parents: HashMap<u32, (u32, String)>,
    /// The contents of files, by their first cluster.
    file_cache: HashMap<u32, Vec<u8>>,
    readonly: bool,
}

/// The state of a server as a mathematical value.
#[verifier::ext_equal]
pub struct NfsView {
    pub disk: Disk,
    pub dirs: Map<u32, Seq<DirentView>>,
    pub parents: Map<u32, (u32, Seq<char>)>,
    pub files: Map<u32, Seq<u8>>,
    pub readonly: bool,
}

/// An answer: the state after a request, and what the client gets.
pub type Answer<T> = (NfsView, core::result::Result<T, NfsStatus>);

/// The parents after the entries from the `i`-th on have been found in a directory.
pub open spec fn learned(
    parents: Map<u32, (u32, Seq<char>)>,
    dir: u32,
    entries: Seq<DirentView>,
    i: int,
) -> Map<u32, (u32, Seq<char>)>
    decreases entries.len() - i,
{
    if i < 0 || i >= entries.len() {
        parents
    } else {
        learned(
            parents.insert(entries[i].first_cluster, (dir, entries[i].filename())),
            dir,
            entries,
            i + 1,
        )
    }
}

/// The first entry that starts at a cluster.
pub open spec fn find_by_cluster(entries: Seq<DirentView>, cluster: u32) -> Option<DirentView>
    decreases entries.len(),
{
    if entries.len() == 0 {
        None
    } else if entries[0].first_cluster == cluster {
        Some(entries[0])
    } else {
        find_by_cluster(entries.drop_first(), cluster)
    }
}

/// The path of a directory, as far as its parents are known, in at most `fuel` steps.
pub open spec fn climb(parents: Map<u32, (u32, Seq<char>)>, cluster: u32, fuel: nat) -> Seq<char>
    decreases fuel,
{
    if fuel == 0 || cluster == FIRST_CLUSTER || !parents.dom().contains(cluster) {
        seq![]
    } else {
        climb(parents, parents[cluster].0, (fuel - 1) as nat).push('/') + parents[cluster].1
    }
}

/// The files without those that are entries of a directory.
pub open spec fn files_without(
    files: Map<u32, Seq<u8>>,
    entries: Seq<DirentView>,
    i: int,
) -> Map<u32, Seq<u8>>
    decreases entries.len() - i,
{
    if i < 0 || i >= entries.len() {
        files
    } else {
        files_without(files.remove(entries[i].first_cluster), entries, i + 1)
    }
}

/// Names of files that macOS puts on every volume, and that are of no use on this one.
pub open spec fn is_metadata_name(name: Seq<char>) -> bool {
    ||| name == ".DS_Store"@
    ||| name == ".Spotlight-V100"@
    ||| name == ".Trashes"@
    ||| name == ".fseventsd"@
    ||| has_prefix(name, "._"@)
}

/// Part of a file: at most `count` bytes from `offset` on, and whether that reaches its end.
pub open spec fn slice_of(data: Seq<u8>, offset: u64, count: u32) -> (Seq<u8>, bool) {
    if offset >= data.len() {
        (seq![], true)
    } else if offset + count >= data.len() {
        (data.skip(offset as int), true)
    } else {
        (data.subrange(offset as int, offset + count), false)
    }
}

/// A file after a write at `offset`; a gap is filled with zeros.
pub open spec fn merged(data: Seq<u8>, offset: u64, new: Seq<u8>) -> Seq<u8> {
    let end = offset + new.len();
    Seq::new(
        if end > data.len() { end as nat } else { data.len() },
        |i: int|
            if offset <= i < end {
                new[i - offset]
            } else if i < data.len() {
                data[i]
            } else {
                0u8
            },
    )
}

/// One line of a directory listing.
#[verifier::ext_equal]
pub struct LineView {
    pub fileid: u64,
    pub name: Seq<char>,
    pub attr: FileAttr,
}

/// Where a page starts: at the start of the listing, or behind the first line of that
/// identifier, or behind the end if there is none.
pub open spec fn page_start(lines: Seq<LineView>, start_after: u64) -> nat
    decreases lines.len(),
{
    if start_after == 0 || lines.len() == 0 {
        0
    } else if lines[0].fileid == start_after {
        1
    } else {
        1 + page_start(lines.drop_first(), start_after)
    }
}

/// A page of a listing: at most `max` lines from its start on, and whether the listing ends
/// with it.
pub open spec fn page(lines: Seq<LineView>, start_after: u64, max: nat) -> (Seq<LineView>, bool) {
    let p = page_start(lines, start_after) as int;
    if p + max >= lines.len() {
        (lines.skip(p), true)
    } else {
        (lines.subrange(p, p + max), false)
    }
}

pub open spec fn entry_line(e: DirentView) -> LineView {
    LineView { fileid: e.first_cluster as u64, name: e.filename(), attr: entry_attr(e) }
}

impl NfsView {
    /// The entries of a directory: those remembered, or those on the disk, which are
    /// remembered.
    pub open spec fn dir_entries(self, cluster: u32) -> Answer<Seq<DirentView>> {
        if self.dirs.dom().contains(cluster) {
            (self, Ok(self.dirs[cluster]))
        } else {
            match self.disk.entries(cluster) {
                Err(_) => (self, Err(NfsStatus::Io)),
                Ok(entries) => (
                    NfsView {
                        parents: learned(self.parents, cluster, entries, 0),
                        dirs: self.dirs.insert(cluster, entries),
                        ..self
                    },
                    Ok(entries),
                ),
            }
        }
    }

    /// The path of something called `name` in a directory.
    pub open spec fn path_of(self, dirid: u64, name: Seq<char>) -> Seq<char> {
        climb(self.parents, cluster_of_id(dirid), self.parents.len()).push('/') + name
    }

    /// The entry of a file identifier, found in the directory that it was seen in.
    pub open spec fn entry_of(self, cluster: u32) -> Answer<DirentView> {
        if self.parents.dom().contains(cluster) {
            match self.dir_entries(self.parents[cluster].0) {
                (s, Err(e)) => (s, Err(e)),
                (s, Ok(entries)) => match find_by_cluster(entries, cluster) {
                    Some(entry) => (s, Ok(entry)),
                    None => (s, Err(NfsStatus::Noent)),
                },
            }
        } else {
            (self, Err(NfsStatus::Noent))
        }
    }

    /// The attributes of a file identifier can be told without asking the device: the root's,
    /// those of an identifier never seen, and those in a directory that is remembered.
    pub open spec fn knows(self, id: u64) -> bool {
        let cluster = cluster_of_id(id);
        id == ROOT_FILEID || (self.parents.dom().contains(cluster) ==> self.dirs.dom().contains(
            self.parents[cluster].0,
        ))
    }

    /// A name can be looked up without asking the device: "." and "..", those that are no
    /// text, and those in a directory that is remembered.
    pub open spec fn knows_name(self, dirid: u64, filename: Seq<u8>) -> bool {
        let name = decode_utf8(filename);
        ||| !valid_utf8(filename)
        ||| name == "."@
        ||| name == ".."@
        ||| self.dirs.dom().contains(cluster_of_id(dirid))
    }

    /// A directory can be listed without asking the device.
    pub open spec fn knows_listing(self, dirid: u64) -> bool {
        &&& self.dirs.dom().contains(cluster_of_id(dirid))
        &&& self.knows(dirid)
        &&& self.knows(self.parent_id(dirid))
    }

    pub open spec fn getattr(self, id: u64, now: NfsTime) -> Answer<FileAttr> {
        if id == ROOT_FILEID {
            (self, Ok(root_attr(now)))
        } else {
            match self.entry_of(cluster_of_id(id)) {
                (s, Ok(entry)) => (s, Ok(entry_attr(entry))),
                (s, Err(e)) => (s, Err(e)),
            }
        }
    }

    /// The identifier of a directory's parent; the root directory is its own.
    pub open spec fn parent_id(self, dirid: u64) -> u64 {
        let cluster = cluster_of_id(dirid);
        if self.parents.dom().contains(cluster) {
            self.parents[cluster].0 as u64
        } else {
            ROOT_FILEID
        }
    }

    pub open spec fn lookup(self, dirid: u64, filename: Seq<u8>) -> Answer<u64> {
        let name = decode_utf8(filename);
        if !valid_utf8(filename) {
            (self, Err(NfsStatus::Noent))
        } else if name == "."@ {
            (self, Ok(dirid))
        } else if name == ".."@ {
            (self, Ok(self.parent_id(dirid)))
        } else {
            match self.dir_entries(cluster_of_id(dirid)) {
                (s, Err(e)) => (s, Err(e)),
                (s, Ok(entries)) => match find_entry(entries, name) {
                    Some(entry) => (s, Ok(entry.first_cluster as u64)),
                    None => (s, Err(NfsStatus::Noent)),
                },
            }
        }
    }

    /// The contents of a file: those remembered, or those on the disk, which are remembered.
    pub open spec fn contents(self, cluster: u32) -> Answer<Seq<u8>> {
        if self.files.dom().contains(cluster) {
            (self, Ok(self.files[cluster]))
        } else {
            match self.entry_of(cluster) {
                (s, Err(e)) => (s, Err(e)),
                (s, Ok(entry)) => match s.disk.read_file(entry) {
                    Err(_) => (s, Err(NfsStatus::Io)),
                    Ok(data) => (
                        NfsView { files: s.files.insert(cluster, data), ..s },
                        Ok(data),
                    ),
                },
            }
        }
    }

    pub open spec fn read(self, id: u64, offset: u64, count: u32) -> Answer<(Seq<u8>, bool)> {
        match self.contents(cluster_of_id(id)) {
            (s, Err(e)) => (s, Err(e)),
            (s, Ok(data)) => (s, Ok(slice_of(data, offset, count))),
        }
    }

    /// Forgets a directory and the contents of the files in it.
    pub open spec fn forget_dir(self, cluster: u32) -> NfsView {
        NfsView {
            files: if self.dirs.dom().contains(cluster) {
                files_without(self.files, self.dirs[cluster], 0)
            } else {
                self.files
            },
            dirs: self.dirs.remove(cluster),
            ..self
        }
    }

    /// Forgets the contents of a file.
    pub open spec fn forget_file(self, cluster: u32) -> NfsView {
        NfsView { files: self.files.remove(cluster), ..self }
    }

    /// Forgets all listings and all contents of files.
    pub open spec fn forget_all(self) -> NfsView {
        NfsView { dirs: Map::empty(), files: Map::empty(), ..self }
    }

    /// The state after the disk has changed.
    pub open spec fn with_disk(self, disk: Disk) -> NfsView {
        NfsView { disk, ..self }
    }

    /// The disk once the file of an identifier has been deleted, as far as that succeeds.
    pub open spec fn deleted(self, id: u64) -> Disk {
        let cluster = cluster_of_id(id);
        match self.entry_of(cluster) {
            (s, Err(_)) => s.disk,
            (s, Ok(entry)) => s.disk.delete(
                s.path_of(self.parents[cluster].0 as u64, entry.filename()),
            ).0,
        }
    }

    /// Writes into a file: the file is deleted and created anew with the merged contents.
    pub open spec fn write(
        self,
        id: u64,
        offset: u64,
        data: Seq<u8>,
        stamp: Stamp,
        now: NfsTime,
    ) -> Answer<FileAttr> {
        self.rewrite(self.deleted(id), id, offset, data, stamp, now)
    }

    /// Writes into a file whose deletion leaves the disk `gone`.
    pub open spec fn rewrite(
        self,
        gone: Disk,
        id: u64,
        offset: u64,
        data: Seq<u8>,
        stamp: Stamp,
        now: NfsTime,
    ) -> Answer<FileAttr> {
        let cluster = cluster_of_id(id);
        if self.readonly {
            (self, Err(NfsStatus::Rofs))
        } else {
            match self.entry_of(cluster) {
                (s, Err(e)) => (s, Err(e)),
                (s, Ok(entry)) => {
                    let parent = self.parents[cluster].0;
                    let path = s.path_of(parent as u64, entry.filename());
                    let before = if s.files.dom().contains(cluster) {
                        Ok(s.files[cluster])
                    } else {
                        s.disk.read_file(entry)
                    };
                    match before {
                        Err(_) => (s, Err(NfsStatus::Io)),
                        Ok(old_data) => match gone.create_file(
                            path,
                            merged(old_data, offset, data),
                            stamp,
                        ) {
                            (d, Err(_)) => (s.with_disk(d), Err(NfsStatus::Io)),
                            (d, Ok(_)) => s.with_disk(d).forget_file(cluster).forget_dir(
                                parent,
                            ).getattr(id, now),
                        },
                    }
                },
            }
        }
    }

    /// Finds what has just been put into a directory.
    pub open spec fn find_new(self, dirid: u64, name: Seq<char>) -> Answer<(u64, FileAttr)> {
        match self.dir_entries(cluster_of_id(dirid)) {
            (s, Err(e)) => (s, Err(e)),
            (s, Ok(entries)) => match find_entry(entries, name) {
                Some(entry) => (s, Ok((entry.first_cluster as u64, entry_attr(entry)))),
                None => (s, Err(NfsStatus::Io)),
            },
        }
    }

    /// The name of something to be made in a directory.
    pub open spec fn new_name(self, filename: Seq<u8>) -> core::result::Result<
        Seq<char>,
        NfsStatus,
    > {
        if self.readonly {
            Err(NfsStatus::Rofs)
        } else if !valid_utf8(filename) {
            Err(NfsStatus::Inval)
        } else if is_metadata_name(decode_utf8(filename)) {
            Err(NfsStatus::Perm)
        } else {
            Ok(decode_utf8(filename))
        }
    }

    pub open spec fn create(self, dirid: u64, filename: Seq<u8>, stamp: Stamp) -> Answer<
        (u64, FileAttr),
    > {
        match self.new_name(filename) {
            Err(e) => (self, Err(e)),
            Ok(name) => match self.disk.create_file(self.path_of(dirid, name), seq![], stamp) {
                (d, Err(_)) => (self.with_disk(d), Err(NfsStatus::Io)),
                (d, Ok(_)) => self.with_disk(d).forget_dir(cluster_of_id(dirid)).find_new(
                    dirid,
                    name,
                ),
            },
        }
    }

    /// Creates a file unless its name is taken.
    pub open spec fn create_exclusive(self, dirid: u64, filename: Seq<u8>, stamp: Stamp) -> Answer<
        u64,
    > {
        match self.new_name(filename) {
            Err(e) => (self, Err(e)),
            Ok(name) => match self.dir_entries(cluster_of_id(dirid)) {
                (s, Err(e)) => (s, Err(e)),
                (s, Ok(entries)) => if find_entry(entries, name) is Some {
                    (s, Err(NfsStatus::Exist))
                } else {
                    match s.create(dirid, filename, stamp) {
                        (s2, Ok((id, _))) => (s2, Ok(id)),
                        (s2, Err(e)) => (s2, Err(e)),
                    }
                },
            },
        }
    }

    pub open spec fn mkdir(self, dirid: u64, filename: Seq<u8>, stamp: Stamp) -> Answer<
        (u64, FileAttr),
    > {
        match self.new_name(filename) {
            Err(e) => (self, Err(e)),
            Ok(name) => match self.disk.create_directory(self.path_of(dirid, name), stamp) {
                (d, Err(_)) => (self.with_disk(d), Err(NfsStatus::Io)),
                (d, Ok(_)) => self.with_disk(d).forget_dir(cluster_of_id(dirid)).find_new(
                    dirid,
                    name,
                ),
            },
        }
    }

    /// Deletes a directory with all that is in it. Any listing and any contents may be of what
    /// is gone.
    pub open spec fn remove_tree(self, path: Seq<char>) -> Answer<()> {
        match self.disk.delete_recursive(path) {
            (d, Ok(_)) => (self.with_disk(d).forget_all(), Ok(())),
            (d, Err(_)) => (self.with_disk(d).forget_all(), Err(NfsStatus::Io)),
        }
    }

    /// Deletes a file or a directory. A directory that is not empty goes with all that is in
    /// it.
    pub open spec fn remove(self, dirid: u64, filename: Seq<u8>) -> Answer<()> {
        if self.readonly {
            (self, Err(NfsStatus::Rofs))
        } else if !valid_utf8(filename) {
            (self, Err(NfsStatus::Inval))
        } else {
            let path = self.path_of(dirid, decode_utf8(filename));
            match self.disk.delete(path) {
                (d, Ok(_)) => (self.with_disk(d).forget_dir(cluster_of_id(dirid)), Ok(())),
                (d, Err(ErrView::DirectoryNotEmpty(_))) => self.with_disk(d).remove_tree(path),
                (d, Err(_)) => (self.with_disk(d), Err(NfsStatus::Io)),
            }
        }
    }

    pub open spec fn rename(
        self,
        from_dirid: u64,
        from: Seq<u8>,
        to_dirid: u64,
        to: Seq<u8>,
    ) -> Answer<()> {
        if self.readonly {
            (self, Err(NfsStatus::Rofs))
        } else if from_dirid != to_dirid {
            (self, Err(NfsStatus::NotSupp))
        } else if !valid_utf8(from) || !valid_utf8(to) {
            (self, Err(NfsStatus::Inval))
        } else {
            match self.disk.rename(
                self.path_of(from_dirid, decode_utf8(from)),
                decode_utf8(to),
            ) {
                (d, Err(_)) => (self.with_disk(d), Err(NfsStatus::Io)),
                (d, Ok(_)) => (self.with_disk(d).forget_dir(cluster_of_id(from_dirid)), Ok(())),
            }
        }
    }

    /// A page of a directory: itself, its parent, then its entries.
    pub open spec fn readdir(
        self,
        dirid: u64,
        start_after: u64,
        max_entries: nat,
        now: NfsTime,
    ) -> Answer<(Seq<LineView>, bool)> {
        match self.dir_entries(cluster_of_id(dirid)) {
            (s, Err(e)) => (s, Err(e)),
            (s, Ok(entries)) => match s.getattr(dirid, now) {
                (s2, Err(e)) => (s2, Err(e)),
                (s2, Ok(own)) => {
                    let parent = s2.parent_id(dirid);
                    match s2.getattr(parent, now) {
                        (s3, Err(e)) => (s3, Err(e)),
                        (s3, Ok(above)) => {
                            let lines = seq![
                                LineView { fileid: dirid, name: "."@, attr: own },
                                LineView { fileid: parent, name: ".."@, attr: above },
                            ] + entries.map_values(|e: DirentView| entry_line(e));
                            (s3, Ok(page(lines, start_after, max_entries)))
                        },
                    }
                },
            },
        }
    }
}

// ---------------------------------------------------------------------------
// Views of the caches
// ---------------------------------------------------------------------------

spec fn dirs_view(m: Map<u32, Vec<DirectoryEntry>>) -> Map<u32, Seq<DirentView>> {
    m.map_values(|v: Vec<DirectoryEntry>| entry_views(v@))
}

spec fn parents_view(m: Map<u32, (u32, String)>) -> Map<u32, (u32, Seq<char>)> {
    m.map_values(|p: (u32, String)| (p.0, p.1@))
}

spec fn files_view(m: Map<u32, Vec<u8>>) -> Map<u32, Seq<u8>> {
    m.map_values(|v: Vec<u8>| v@)
}

/// A line of a directory listing.
pub struct DirLine {
    pub fileid: u64,
    pub name: String,
    pub attr: FileAttr,
}

impl View for DirLine {
    type V = LineView;

    open spec fn view(&self) -> LineView {
        LineView { fileid: self.fileid, name: self.name@, attr: self.attr }
    }
}

/// The views of lines.
pub open spec fn line_views(v: Seq<DirLine>) -> Seq<LineView> {
    v.map_values(|l: DirLine| l@)
}

/// A page of a directory listing.
pub struct DirPage {
    pub entries: Vec<DirLine>,
    /// Whether the listing ends with this page.
    pub end: bool,
}

fn copy_entries(v: &Vec<DirectoryEntry>) -> (r: Vec<DirectoryEntry>)
    ensures
        r@ == v@,
{
    let mut r: Vec<DirectoryEntry> = Vec::new();
    for i in 0..v.len()
        invariant
            r@ == v@.take(i as int),
    {
        r.push(v[i]);
        assert(r@ =~= v@.take(i + 1));
    }
    assert(v@.take(v@.len() as int) =~= v@);
    r
}

fn entry_by_cluster(entries: &Vec<DirectoryEntry>, cluster: u32) -> (r: Option<DirectoryEntry>)
    ensures
        match r {
            Some(e) => find_by_cluster(entry_views(entries@), cluster) == Some(e@),
            None => find_by_cluster(entry_views(entries@), cluster) is None,
        },
{
    let ghost all = entry_views(entries@);
    let mut i: usize = 0;
    assert(all.skip(0) =~= all);
    while i < entries.len()
        invariant
            all == entry_views(entries@),
            i <= entries.len(),
            find_by_cluster(all.skip(i as int), cluster) == find_by_cluster(all, cluster),
        decreases entries.len() - i,
    {
        assert(all.skip(i as int)[0] == entries@[i as int]@);
        if entries[i].first_cluster == cluster {
            return Some(entries[i]);
        }
        assert(all.skip(i as int).drop_first() =~= all.skip(i + 1));
        i = i + 1;
    }
    None
}

/// Part of a file: at most `count` bytes from `offset` on, and whether that reaches its end.
pub fn read_slice(data: &[u8], offset: u64, count: u32) -> (r: (Vec<u8>, bool))
    ensures
        (r.0@, r.1) == slice_of(data@, offset, count),
{
    let len: u64 = data.len() as u64;
    let mut out: Vec<u8> = Vec::new();
    if offset >= len {
        assert(out@ =~= seq![]);
        return (out, true);
    }
    let start: usize = offset as usize;
    let eof = count as u64 >= len - offset;
    let end: usize = if eof { data.len() } else { start + count as usize };
    out.extend_from_slice(vstd::slice::slice_subrange(data, start, end));
    assert(out@ =~= data@.subrange(start as int, end as int));
    proof {
        if eof {
            assert(data@.subrange(start as int, end as int) =~= data@.skip(offset as int));
        }
    }
    (out, eof)
}

/// A file after a write at `offset`.
pub fn merge_write(data: &[u8], offset: u64, new: &[u8]) -> (r: Vec<u8>)
    requires
        offset + new.len() <= isize::MAX,
    ensures
        r@ == merged(data@, offset, new@),
{
    let start: usize = offset as usize;
    let end: usize = start + new.len();
    let mut r: Vec<u8> = Vec::new();
    if start <= data.len() {
        r.extend_from_slice(vstd::slice::slice_subrange(data, 0, start));
    } else {
        r.extend_from_slice(data);
        r.resize(start, 0);
    }
    let ghost head = r@;
    assert(head.len() == start);
    assert(forall|k: int|
        0 <= k < start ==> head[k] == (if k < data@.len() {
            data@[k]
        } else {
            0u8
        })) by {
        assert forall|k: int| 0 <= k < start implies head[k] == (if k < data@.len() {
            data@[k]
        } else {
            0u8
        }) by {
            if start > data@.len() && k < data@.len() {
                assert(head.subrange(0, data@.len() as int)[k] == head[k]);
            }
        }
    }
    r.extend_from_slice(new);
    if end < data.len() {
        r.extend_from_slice(vstd::slice::slice_subrange(data, end, data.len()));
    }
    assert(r@ =~= merged(data@, offset, new@));
    r
}

/// A page of a listing.
pub fn take_page(lines: Vec<DirLine>, start_after: u64, max_entries: usize) -> (p: DirPage)
    ensures
        (line_views(p.entries@), p.end) == page(line_views(lines@), start_after, max_entries as nat),
{
    let ghost all = line_views(lines@);
    let mut start: usize = 0;
    if start_after != 0 {
        assert(all.skip(0) =~= all);
        while start < lines.len() && lines[start].fileid != start_after
            invariant
                all == line_views(lines@),
                start <= lines.len(),
                start_after != 0,
                page_start(all, start_after) == start + page_start(
                    all.skip(start as int),
                    start_after,
                ),
            decreases lines.len() - start,
        {
            assert(all.skip(start as int)[0] == lines@[start as int]@);
            assert(all.skip(start as int).drop_first() =~= all.skip(start + 1));
            start = start + 1;
        }
        if start < lines.len() {
            assert(all.skip(start as int)[0] == lines@[start as int]@);
            start = start + 1;
        }
    }
    assert(start == page_start(all, start_after));
    let end = max_entries >= lines.len() - start;
    let stop: usize = if end { lines.len() } else { start + max_entries };
    let mut lines = lines;
    let mut rest = lines.split_off(start);
    rest.truncate(stop - start);
    proof {
        assert(line_views(rest@) =~= all.subrange(start as int, stop as int));
        if end {
            assert(all.subrange(start as int, stop as int) =~= all.skip(start as int));
        }
    }
    DirPage { entries: rest, end }
}

impl<D: Device> FatxNfs<D> {
    /// The volume and the caches.
    pub closed spec fn view(&self) -> NfsView {
        NfsView {
            disk: self.vol@,
            dirs: dirs_view(self.dir_cache@),
            parents: parents_view(self.inode_parents@),
            files: files_view(self.file_cache@),
            readonly: self.readonly,
        }
    }

    /// The volume is in order.
    pub closed spec fn wf(&self) -> bool {
        self.vol.wf()
    }

    /// The device never fails for reasons of its own.
    pub closed spec fn reliable(&self) -> bool {
        self.vol.reliable()
    }

    /// What the device has put into store: what it held when it was last flushed.
    pub closed spec fn stored(&self) -> Seq<u8> {
        self.vol.stored()
    }

    /// The size of the volume in bytes.
    pub closed spec fn volume_size(&self) -> u64 {
        self.vol.volume_size()
    }

    /// The superblock of the volume.
    pub closed spec fn header(&self) -> Superblock {
        self.vol.header()
    }

    /// The server is in order and serves the same volume, as dependable as before.
    pub open spec fn keeps(&self, before: &Self) -> bool {
        &&& self.wf()
        &&& self.reliable() == before.reliable()
        &&& self@.readonly == before@.readonly
        &&& self@.disk.geo == before@.disk.geo
        &&& self@.disk.capacity == before@.disk.capacity
        &&& self.volume_size() == before.volume_size()
        &&& self.header() == before.header()
    }

    /// A server for a volume, with nothing remembered yet.
    pub fn new(vol: FatxVolume<D>, readonly: bool) -> (s: Self)
        requires
            vol.wf(),
        ensures
            s.wf(),
            s.reliable() == vol.reliable(),
            s.stored() == vol.stored(),
            s.volume_size() == vol.volume_size(),
            s.header() == vol.header(),
            s@ == (NfsView {
                disk: vol@,
                dirs: Map::empty(),
                parents: Map::empty(),
                files: Map::empty(),
                readonly,
            }),
    {
        let s = FatxNfs {
            vol,
            dir_cache: HashMap::new(),
            inode_parents: HashMap::new(),
            file_cache: HashMap::new(),
            readonly,
        };
        assert(s@.dirs =~= Map::empty());
        assert(s@.parents =~= Map::empty());
        assert(s@.files =~= Map::empty());
        s
    }

    /// Whether writing is refused.
    pub fn is_readonly(&self) -> (b: bool)
        ensures
            b == self@.readonly,
    {
        self.readonly
    }

    /// Refuses to write on a volume that is mounted read-only.
    pub fn check_writable(&self) -> (r: core::result::Result<(), NfsStatus>)
        ensures
            r == (if self@.readonly {
                Err::<(), NfsStatus>(NfsStatus::Rofs)
            } else {
                Ok(())
            }),
    {
        if self.readonly {
            Err(NfsStatus::Rofs)
        } else {
            Ok(())
        }
    }

    /// Remembers where entries have been seen.
    fn learn_parents(&mut self, cluster: u32, entries: &Vec<DirectoryEntry>)
        requires
            old(self).wf(),
        ensures
            final(self).keeps(old(self)),
            final(self).stored() == old(self).stored(),
            final(self)@ == (NfsView {
                parents: learned(old(self)@.parents, cluster, entry_views(entries@), 0),
                ..old(self)@
            }),
    {
        let ghost all = entry_views(entries@);
        let ghost want = learned(self@.parents, cluster, all, 0);
        let mut i: usize = 0;
        while i < entries.len()
            invariant
                all == entry_views(entries@),
                i <= entries.len(),
                self.keeps(old(self)),
                self.stored() == old(self).stored(),
                self@ == (NfsView { parents: self@.parents, ..old(self)@ }),
                learned(self@.parents, cluster, all, i as int) == want,
            decreases entries.len() - i,
        {
            let ghost before = self.inode_parents@;
            let e = entries[i];
            let name = e.filename();
            self.inode_parents.insert(e.first_cluster, (cluster, name));
            proof {
                assert(all[i as int] == e@);
                assert(parents_view(self.inode_parents@) =~= parents_view(before).insert(
                    e.first_cluster,
                    (cluster, e@.filename()),
                ));
            }
            i = i + 1;
        }
    }

    /// The entries of a directory, from the cache or else from the volume.
    pub fn get_dir_entries(&mut self, cluster: u32) -> (r: core::result::Result<
        Vec<DirectoryEntry>,
        NfsStatus,
    >)
        requires
            old(self).wf(),
        ensures
            final(self).keeps(old(self)),
            final(self).stored() == old(self).stored(),
            r matches Err(NfsStatus::Io) ==> final(self)@ == old(self)@,
            old(self).reliable() || !(r matches Err(NfsStatus::Io)) || old(self)@.dirs.dom().contains(
                cluster,
            ) ==> ({
                let (s, a) = old(self)@.dir_entries(cluster);
                &&& final(self)@ == s
                &&& match r {
                    Ok(v) => a == Ok::<Seq<DirentView>, NfsStatus>(entry_views(v@)),
                    Err(e) => a == Err::<Seq<DirentView>, NfsStatus>(e),
                }
            }),
            final(self)@.disk == old(self)@.disk,
            final(self)@.readonly == old(self)@.readonly,
            final(self)@.files == old(self)@.files,
    {
        match self.dir_cache.get(&cluster) {
            Some(entries) => {
                return Ok(copy_entries(entries));
            },
            None => {},
        }
        match self.vol.read_directory(cluster) {
            Ok(entries) => {
                self.learn_parents(cluster, &entries);
                let copy = copy_entries(&entries);
                let ghost before = self.dir_cache@;
                self.dir_cache.insert(cluster, entries);
                assert(dirs_view(self.dir_cache@) =~= dirs_view(before).insert(
                    cluster,
                    entry_views(copy@),
                ));
                Ok(copy)
            },
            Err(_) => Err(NfsStatus::Io),
        }
    }

    /// The path of a directory, as far as its parents are known.
    fn climb_path(&self, cluster: u32, fuel: usize) -> (path: String)
        ensures
            path@ == climb(self@.parents, cluster, fuel as nat),
        decreases fuel,
    {
        if fuel == 0 || cluster == FIRST_CLUSTER {
            let path = String::new();
            assert(path@ =~= seq![]);
            return path;
        }
        match self.inode_parents.get(&cluster) {
            Some(p) => {
                let mut path = self.climb_path(p.0, fuel - 1);
                path.push('/');
                vstd::string::StringExecFns::append(&mut path, p.1.as_str());
                assert(self@.parents[cluster] == (p.0, p.1@));
                path
            },
            None => {
                let path = String::new();
                assert(path@ =~= seq![]);
                path
            },
        }
    }

    /// The path of something called `name` in a directory. A directory that is its own
    /// ancestor ends the way up after as many steps as there are known entries.
    pub fn resolve_fatx_path(&self, parent_id: u64, name: &str) -> (path: String)
        ensures
            path@ == self@.path_of(parent_id, name@),
    {
        let fuel: usize = self.inode_parents.len();
        assert(self@.parents.dom() =~= self.inode_parents@.dom());
        let mut path = self.climb_path(id_to_cluster(parent_id), fuel);
        path.push('/');
        vstd::string::StringExecFns::append(&mut path, name);
        path
    }

    /// Forgets a directory, and the contents of the files in it: they may have new clusters.
    pub fn invalidate_dir(&mut self, parent_cluster: u32)
        requires
            old(self).wf(),
        ensures
            final(self).keeps(old(self)),
            final(self).stored() == old(self).stored(),
            final(self)@ == old(self)@.forget_dir(parent_cluster),
    {
        let ghost d0 = self.dir_cache@;
        let entries = match self.dir_cache.remove(&parent_cluster) {
            Some(entries) => entries,
            None => {
                assert(dirs_view(self.dir_cache@) =~= dirs_view(d0).remove(parent_cluster));
                return;
            },
        };
        assert(dirs_view(self.dir_cache@) =~= dirs_view(d0).remove(parent_cluster));
        let ghost all = entry_views(entries@);
        assert(old(self)@.dirs[parent_cluster] == all);
        let ghost want = files_without(self@.files, all, 0);
        let mut i: usize = 0;
        while i < entries.len()
            invariant
                all == entry_views(entries@),
                i <= entries.len(),
                self.keeps(old(self)),
                self.stored() == old(self).stored(),
                self@ == (NfsView {
                    files: self@.files,
                    dirs: old(self)@.dirs.remove(parent_cluster),
                    ..old(self)@
                }),
                files_without(self@.files, all, i as int) == want,
            decreases entries.len() - i,
        {
            let ghost before = self.file_cache@;
            let c = entries[i].first_cluster;
            assert(all[i as int].first_cluster == c);
            self.file_cache.remove(&c);
            assert(files_view(self.file_cache@) =~= files_view(before).remove(c));
            i = i + 1;
        }
    }

    /// Forgets the contents of a file.
    pub fn invalidate_file(&mut self, cluster: u32)
        requires
            old(self).wf(),
        ensures
            final(self).keeps(old(self)),
            final(self).stored() == old(self).stored(),
            final(self)@ == old(self)@.forget_file(cluster),
    {
        let ghost before = self.file_cache@;
        self.file_cache.remove(&cluster);
        assert(files_view(self.file_cache@) =~= files_view(before).remove(cluster));
    }

    /// Whether macOS puts files of that name on every volume. They are of no use on an Xbox
    /// drive, and are refused.
    pub fn is_macos_metadata(name: &str) -> (b: bool)
        ensures
            b == is_metadata_name(name@),
    {
        same_text(name, ".DS_Store") || same_text(name, ".Spotlight-V100") || same_text(
            name,
            ".Trashes",
        ) || same_text(name, ".fseventsd") || text_has_prefix(name, "._")
    }

    // -----------------------------------------------------------------------
    // Requests
    // -----------------------------------------------------------------------

    /// The file identifier of the root directory.
    pub fn root_dir(&self) -> (id: u64)
        ensures
            id == ROOT_FILEID,
    {
        ROOT_FILEID
    }

    /// The identifier of a directory's parent.
    fn parent_id(&self, dirid: u64) -> (id: u64)
        ensures
            id == self@.parent_id(dirid),
    {
        let cluster = id_to_cluster(dirid);
        match self.inode_parents.get(&cluster) {
            Some(p) => {
                assert(self@.parents[cluster] == (p.0, p.1@));
                cluster_to_id(p.0)
            },
            None => ROOT_FILEID,
        }
    }

    /// The entry of a file identifier and the directory that it was seen in.
    fn entry_of(&mut self, cluster: u32) -> (r: core::result::Result<
        (u32, DirectoryEntry),
        NfsStatus,
    >)
        requires
            old(self).wf(),
        ensures
            final(self).keeps(old(self)),
            final(self).stored() == old(self).stored(),
            r matches Err(NfsStatus::Io) ==> final(self)@ == old(self)@,
            old(self).reliable() || !(r matches Err(NfsStatus::Io)) || (old(self)@.parents.dom().contains(
                cluster,
            ) ==> old(self)@.dirs.dom().contains(old(self)@.parents[cluster].0)) ==> ({
                let (s, a) = old(self)@.entry_of(cluster);
                &&& final(self)@ == s
                &&& match r {
                    Ok((parent, entry)) => {
                        &&& a == Ok::<DirentView, NfsStatus>(entry@)
                        &&& old(self)@.parents.dom().contains(cluster)
                        &&& parent == old(self)@.parents[cluster].0
                    },
                    Err(e) => a == Err::<DirentView, NfsStatus>(e),
                }
            }),
            final(self)@.disk == old(self)@.disk,
            final(self)@.readonly == old(self)@.readonly,
            final(self)@.files == old(self)@.files,
    {
        let parent = match self.inode_parents.get(&cluster) {
            Some(p) => {
                assert(self@.parents[cluster] == (p.0, p.1@));
                p.0
            },
            None => return Err(NfsStatus::Noent),
        };
        let entries = match self.get_dir_entries(parent) {
            Ok(entries) => entries,
            Err(e) => return Err(e),
        };
        match entry_by_cluster(&entries, cluster) {
            Some(entry) => Ok((parent, entry)),
            None => Err(NfsStatus::Noent),
        }
    }

    /// Finds a name in a directory.
    pub fn lookup(&mut self, dirid: u64, filename: &[u8]) -> (r: core::result::Result<
        u64,
        NfsStatus,
    >)
        requires
            old(self).wf(),
        ensures
            final(self).keeps(old(self)),
            final(self).stored() == old(self).stored(),
            r matches Err(NfsStatus::Io) ==> final(self)@ == old(self)@,
            old(self).reliable() || !(r matches Err(NfsStatus::Io)) || old(self)@.knows_name(
                dirid,
                filename@,
            ) ==> (final(self)@, r) == old(self)@.lookup(dirid, filename@),
    {
        let name = match text_of_utf8(filename) {
            Some(name) => name,
            None => return Err(NfsStatus::Noent),
        };
        if same_text(name.as_str(), ".") {
            return Ok(dirid);
        }
        if same_text(name.as_str(), "..") {
            return Ok(self.parent_id(dirid));
        }
        let entries = match self.get_dir_entries(id_to_cluster(dirid)) {
            Ok(entries) => entries,
            Err(e) => return Err(e),
        };
        match find_by_name(&entries, name.as_str()) {
            Some(entry) => Ok(cluster_to_id(entry.first_cluster)),
            None => Err(NfsStatus::Noent),
        }
    }

    /// The attributes of a file identifier; `now` stands in for the times of the root
    /// directory, which has none.
    pub fn getattr(&mut self, id: u64, now: NfsTime) -> (r: core::result::Result<
        FileAttr,
        NfsStatus,
    >)
        requires
            old(self).wf(),
        ensures
            final(self).keeps(old(self)),
            final(self).stored() == old(self).stored(),
            r matches Err(NfsStatus::Io) ==> final(self)@ == old(self)@,
            old(self).reliable() || !(r matches Err(NfsStatus::Io)) || old(self)@.knows(id) ==> (final(self)@, r) == old(self)@.getattr(id, now),
            final(self)@.disk == old(self)@.disk,
            final(self)@.readonly == old(self)@.readonly,
            final(self)@.files == old(self)@.files,
    {
        if id == ROOT_FILEID {
            return Ok(root_fattr(now));
        }
        match self.entry_of(id_to_cluster(id)) {
            Ok((_, entry)) => Ok(dirent_to_fattr(&entry)),
            Err(e) => Err(e),
        }
    }

    /// Setting attributes changes nothing: the file system has none to set. The answer is the
    /// attributes as they are.
    pub fn setattr(&mut self, id: u64, now: NfsTime) -> (r: core::result::Result<
        FileAttr,
        NfsStatus,
    >)
        requires
            old(self).wf(),
        ensures
            final(self).keeps(old(self)),
            final(self).stored() == old(self).stored(),
            r matches Err(NfsStatus::Io) ==> final(self)@ == old(self)@,
            old(self).reliable() || !(r matches Err(NfsStatus::Io)) || old(self)@.knows(id) ==> (final(self)@, r) == old(self)@.getattr(id, now),
    {
        self.getattr(id, now)
    }

    /// Reads part of a file. The whole file is remembered for the next request.
    pub fn read(&mut self, id: u64, offset: u64, count: u32) -> (r: core::result::Result<
        (Vec<u8>, bool),
        NfsStatus,
    >)
        requires
            old(self).wf(),
        ensures
            final(self).keeps(old(self)),
            final(self).stored() == old(self).stored(),
            r matches Err(NfsStatus::Io) ==> final(self)@ == old(self)@ || final(self)@ == old(
                self,
            )@.entry_of(cluster_of_id(id)).0,
            old(self).reliable() || !(r matches Err(NfsStatus::Io)) || old(self)@.files.dom().contains(
                cluster_of_id(id),
            ) ==> ({
                let (s, a) = old(self)@.read(id, offset, count);
                &&& final(self)@ == s
                &&& match r {
                    Ok((data, eof)) => a == Ok::<(Seq<u8>, bool), NfsStatus>((data@, eof)),
                    Err(e) => a == Err::<(Seq<u8>, bool), NfsStatus>(e),
                }
            }),
    {
        let cluster = id_to_cluster(id);
        match self.file_cache.get(&cluster) {
            Some(data) => {
                assert(self@.files[cluster] == data@);
                return Ok(read_slice(data.as_slice(), offset, count));
            },
            None => {},
        }
        let entry = match self.entry_of(cluster) {
            Ok((_, entry)) => entry,
            Err(e) => return Err(e),
        };
        match self.vol.read_file(&entry) {
            Ok(data) => {
                let part = read_slice(data.as_slice(), offset, count);
                let ghost before = self.file_cache@;
                let ghost contents = data@;
                self.file_cache.insert(cluster, data);
                assert(files_view(self.file_cache@) =~= files_view(before).insert(
                    cluster,
                    contents,
                ));
                Ok(part)
            },
            Err(_) => Err(NfsStatus::Io),
        }
    }

    /// Deletes a file, as far as that succeeds, and creates it anew; the disk in between is
    /// given along.
    fn replace_file(&mut self, path: &str, data: &[u8], stamp: Stamp) -> (r: (
        core::result::Result<(), NfsStatus>,
        Ghost<Disk>,
    ))
        requires
            old(self).wf(),
        ensures
            final(self).keeps(old(self)),
            old(self).reliable() && r.0 is Ok ==> final(self).stored() == final(self)@.disk.bytes,
            final(self)@ == old(self)@.with_disk(final(self)@.disk),
            r.0 matches Err(e) ==> e == NfsStatus::Io,
            old(self).reliable() ==> r.1@ == old(self)@.disk.delete(path@).0,
            old(self).reliable() || r.0 is Ok ==> ({
                let (d, a) = r.1@.create_file(path@, data@, stamp);
                final(self)@.disk == d && (r.0 is Ok <==> a is Ok)
            }),
    {
        let _ = self.vol.delete(path);
        let ghost gone = self.vol@;
        match self.vol.create_file_at(path, data, stamp) {
            Ok(_) => {},
            Err(_) => return (Err(NfsStatus::Io), Ghost(gone)),
        }
        let _ = self.vol.flush();
        (Ok(()), Ghost(gone))
    }

    /// What a file will hold after a write.
    fn merged_contents(&mut self, entry: &DirectoryEntry, cluster: u32, offset: u64, data: &[u8]) -> (r:
        core::result::Result<Vec<u8>, NfsStatus>)
        requires
            old(self).wf(),
            offset + data.len() <= isize::MAX,
        ensures
            final(self).keeps(old(self)),
            final(self).stored() == old(self).stored(),
            final(self)@ == old(self)@,
            r matches Err(e) ==> e == NfsStatus::Io,
            old(self).reliable() || r is Ok ==> ({
                let before = if old(self)@.files.dom().contains(cluster) {
                    Ok(old(self)@.files[cluster])
                } else {
                    old(self)@.disk.read_file(entry@)
                };
                match r {
                    Ok(v) => before is Ok && v@ == merged(before->Ok_0, offset, data@),
                    Err(_) => before is Err,
                }
            }),
    {
        match self.file_cache.get(&cluster) {
            Some(cached) => {
                assert(self@.files[cluster] == cached@);
                return Ok(merge_write(cached.as_slice(), offset, data));
            },
            None => {},
        }
        match self.vol.read_file(entry) {
            Ok(file_data) => Ok(merge_write(file_data.as_slice(), offset, data)),
            Err(_) => Err(NfsStatus::Io),
        }
    }

    /// Writes into a file; the disk between its deletion and its creation is given along.
    fn write_steps(&mut self, id: u64, offset: u64, data: &[u8], stamp: Stamp, now: NfsTime) -> (r: (
        core::result::Result<FileAttr, NfsStatus>,
        Ghost<Disk>,
    ))
        requires
            old(self).wf(),
            offset + data.len() <= isize::MAX,
        ensures
            final(self).keeps(old(self)),
            old(self).reliable() && r.0 is Ok ==> final(self).stored() == final(self)@.disk.bytes,
            old(self).reliable() ==> r.1@ == old(self)@.deleted(id),
            old(self).reliable() || old(self)@.readonly || !(r.0 matches Err(NfsStatus::Io)) ==> (
                final(self)@,
                r.0,
            ) == old(self)@.rewrite(r.1@, id, offset, data@, stamp, now),
    {
        let ghost known = self@.deleted(id);
        match self.check_writable() {
            Ok(_) => {},
            Err(e) => return (Err(e), Ghost(known)),
        }
        let cluster = id_to_cluster(id);
        let (parent, entry) = match self.entry_of(cluster) {
            Ok(found) => found,
            Err(e) => return (Err(e), Ghost(known)),
        };
        let ghost s = self@;
        let path = self.resolve_fatx_path(cluster_to_id(parent), entry.filename().as_str());
        let contents = match self.merged_contents(&entry, cluster, offset, data) {
            Ok(contents) => contents,
            Err(e) => return (Err(e), Ghost(known)),
        };
        let (done, Ghost(gone)) = self.replace_file(path.as_str(), contents.as_slice(), stamp);
        match done {
            Ok(_) => {},
            Err(e) => return (Err(e), Ghost(gone)),
        }
        self.invalidate_file(cluster);
        self.invalidate_dir(parent);
        (self.getattr(id, now), Ghost(gone))
    }

    /// Writes into a file: the file is deleted and created anew. A failure to delete it is
    /// passed over.
    pub fn write(&mut self, id: u64, offset: u64, data: &[u8], stamp: Stamp, now: NfsTime) -> (r:
        core::result::Result<FileAttr, NfsStatus>)
        requires
            old(self).wf(),
            offset + data.len() <= isize::MAX,
        ensures
            final(self).keeps(old(self)),
            old(self).reliable() && r is Ok ==> final(self).stored() == final(self)@.disk.bytes,
            old(self)@.readonly ==> r == Err::<FileAttr, NfsStatus>(NfsStatus::Rofs) && final(self)@
                == old(self)@,
            old(self).reliable() ==> (final(self)@, r) == old(self)@.write(
                id,
                offset,
                data@,
                stamp,
                now,
            ),
            !(r matches Err(NfsStatus::Io)) ==> exists|gone: Disk|
                (final(self)@, r) == #[trigger] old(self)@.rewrite(
                    gone,
                    id,
                    offset,
                    data@,
                    stamp,
                    now,
                ),
    {
        let (r, Ghost(gone)) = self.write_steps(id, offset, data, stamp, now);
        r
    }

    /// The name of something to be made in a directory.
    fn new_name(&self, filename: &[u8]) -> (r: core::result::Result<String, NfsStatus>)
        ensures
            match r {
                Ok(name) => self@.new_name(filename@) == Ok::<Seq<char>, NfsStatus>(name@),
                Err(e) => self@.new_name(filename@) == Err::<Seq<char>, NfsStatus>(e),
            },
    {
        match self.check_writable() {
            Ok(_) => {},
            Err(e) => return Err(e),
        }
        match text_of_utf8(filename) {
            Some(name) => {
                if Self::is_macos_metadata(name.as_str()) {
                    Err(NfsStatus::Perm)
                } else {
                    Ok(name)
                }
            },
            None => Err(NfsStatus::Inval),
        }
    }

    /// Finds what has just been put into a directory.
    fn find_new(&mut self, dirid: u64, name: &str) -> (r: core::result::Result<
        (u64, FileAttr),
        NfsStatus,
    >)
        requires
            old(self).wf(),
        ensures
            final(self).keeps(old(self)),
            final(self).stored() == old(self).stored(),
            old(self).reliable() || !(r matches Err(NfsStatus::Io)) ==> (final(self)@, r) == old(self)@.find_new(dirid, name@),
    {
        let entries = match self.get_dir_entries(id_to_cluster(dirid)) {
            Ok(entries) => entries,
            Err(e) => return Err(e),
        };
        match find_by_name(&entries, name) {
            Some(entry) => Ok((cluster_to_id(entry.first_cluster), dirent_to_fattr(&entry))),
            None => Err(NfsStatus::Io),
        }
    }

    /// Creates an empty file.
    pub fn create(&mut self, dirid: u64, filename: &[u8], stamp: Stamp) -> (r:
        core::result::Result<(u64, FileAttr), NfsStatus>)
        requires
            old(self).wf(),
        ensures
            final(self).keeps(old(self)),
            old(self).reliable() && r is Ok ==> final(self).stored() == final(self)@.disk.bytes,
            old(self)@.readonly ==> r == Err::<(u64, FileAttr), NfsStatus>(NfsStatus::Rofs) && final(self)@ == old(
                self,
            )@,
            old(self)@.new_name(filename@) is Err ==> r == Err::<(u64, FileAttr), NfsStatus>(
                old(self)@.new_name(filename@)->Err_0,
            ) && final(self)@ == old(self)@,
            old(self).reliable() || !(r matches Err(NfsStatus::Io)) ==> (final(self)@, r) == old(self)@.create(
                dirid,
                filename@,
                stamp,
            ),
    {
        let name = match self.new_name(filename) {
            Ok(name) => name,
            Err(e) => return Err(e),
        };
        let path = self.resolve_fatx_path(dirid, name.as_str());
        let nothing: Vec<u8> = Vec::new();
        assert(nothing@ =~= seq![]);
        match self.vol.create_file_at(path.as_str(), nothing.as_slice(), stamp) {
            Ok(_) => {},
            Err(_) => return Err(NfsStatus::Io),
        }
        let _ = self.vol.flush();
        self.invalidate_dir(id_to_cluster(dirid));
        self.find_new(dirid, name.as_str())
    }

    /// Creates an empty file, unless its name is taken.
    pub fn create_exclusive(&mut self, dirid: u64, filename: &[u8], stamp: Stamp) -> (r:
        core::result::Result<u64, NfsStatus>)
        requires
            old(self).wf(),
        ensures
            final(self).keeps(old(self)),
            old(self).reliable() && r is Ok ==> final(self).stored() == final(self)@.disk.bytes,
            old(self)@.readonly ==> r == Err::<u64, NfsStatus>(NfsStatus::Rofs) && final(self)@ == old(
                self,
            )@,
            old(self)@.new_name(filename@) is Err ==> r == Err::<u64, NfsStatus>(
                old(self)@.new_name(filename@)->Err_0,
            ) && final(self)@ == old(self)@,
            old(self).reliable() || !(r matches Err(NfsStatus::Io)) ==> (final(self)@, r) == old(self)@.create_exclusive(
                dirid,
                filename@,
                stamp,
            ),
    {
        let name = match self.new_name(filename) {
            Ok(name) => name,
            Err(e) => return Err(e),
        };
        let entries = match self.get_dir_entries(id_to_cluster(dirid)) {
            Ok(entries) => entries,
            Err(e) => return Err(e),
        };
        if find_by_name(&entries, name.as_str()).is_some() {
            return Err(NfsStatus::Exist);
        }
        match self.create(dirid, filename, stamp) {
            Ok((id, _)) => Ok(id),
            Err(e) => Err(e),
        }
    }

    /// Creates a directory.
    pub fn mkdir(&mut self, dirid: u64, dirname: &[u8], stamp: Stamp) -> (r: core::result::Result<
        (u64, FileAttr),
        NfsStatus,
    >)
        requires
            old(self).wf(),
        ensures
            final(self).keeps(old(self)),
            old(self).reliable() && r is Ok ==> final(self).stored() == final(self)@.disk.bytes,
            old(self)@.readonly ==> r == Err::<(u64, FileAttr), NfsStatus>(NfsStatus::Rofs) && final(self)@ == old(
                self,
            )@,
            old(self)@.new_name(dirname@) is Err ==> r == Err::<(u64, FileAttr), NfsStatus>(
                old(self)@.new_name(dirname@)->Err_0,
            ) && final(self)@ == old(self)@,
            old(self).reliable() || !(r matches Err(NfsStatus::Io)) ==> (final(self)@, r) == old(self)@.mkdir(dirid, dirname@, stamp),
    {
        let name = match self.new_name(dirname) {
            Ok(name) => name,
            Err(e) => return Err(e),
        };
        let path = self.resolve_fatx_path(dirid, name.as_str());
        match self.vol.create_directory_at(path.as_str(), stamp) {
            Ok(_) => {},
            Err(_) => return Err(NfsStatus::Io),
        }
        let _ = self.vol.flush();
        self.invalidate_dir(id_to_cluster(dirid));
        self.find_new(dirid, name.as_str())
    }

    /// Forgets all listings and all contents of files.
    fn invalidate_all(&mut self)
        requires
            old(self).wf(),
        ensures
            final(self).keeps(old(self)),
            final(self).stored() == old(self).stored(),
            final(self)@ == old(self)@.forget_all(),
    {
        self.dir_cache = HashMap::new();
        self.file_cache = HashMap::new();
        assert(self@.dirs =~= Map::empty());
        assert(self@.files =~= Map::empty());
    }

    /// Deletes a directory with all that is in it.
    fn remove_tree(&mut self, path: &str) -> (r: core::result::Result<(), NfsStatus>)
        requires
            old(self).wf(),
        ensures
            final(self).keeps(old(self)),
            old(self).reliable() && r is Ok ==> final(self).stored() == final(self)@.disk.bytes,
            r matches Err(e) ==> e == NfsStatus::Io,
            old(self).reliable() || r is Ok ==> (final(self)@, r) == old(self)@.remove_tree(path@),
    {
        let done = self.vol.delete_recursive(path);
        let _ = self.vol.flush();
        self.invalidate_all();
        match done {
            Ok(_) => Ok(()),
            Err(_) => Err(NfsStatus::Io),
        }
    }

    /// Deletes a file or a directory. A directory that is not empty goes with all that is in
    /// it.
    pub fn remove(&mut self, dirid: u64, filename: &[u8]) -> (r: core::result::Result<
        (),
        NfsStatus,
    >)
        requires
            old(self).wf(),
        ensures
            final(self).keeps(old(self)),
            old(self).reliable() && r is Ok ==> final(self).stored() == final(self)@.disk.bytes,
            old(self)@.readonly ==> r == Err::<(), NfsStatus>(NfsStatus::Rofs) && final(self)@ == old(
                self,
            )@,
            old(self).reliable() || !(r matches Err(NfsStatus::Io)) || !valid_utf8(filename@) ==> (final(self)@, r) == old(self)@.remove(dirid, filename@),
    {
        match self.check_writable() {
            Ok(_) => {},
            Err(e) => return Err(e),
        }
        let name = match text_of_utf8(filename) {
            Some(name) => name,
            None => return Err(NfsStatus::Inval),
        };
        let path = self.resolve_fatx_path(dirid, name.as_str());
        match self.vol.delete(path.as_str()) {
            Ok(_) => {},
            Err(FatxError::DirectoryNotEmpty(_)) => return self.remove_tree(path.as_str()),
            Err(_) => return Err(NfsStatus::Io),
        }
        let _ = self.vol.flush();
        self.invalidate_dir(id_to_cluster(dirid));
        Ok(())
    }

    /// Renames something within its directory.
    pub fn rename(
        &mut self,
        from_dirid: u64,
        from_filename: &[u8],
        to_dirid: u64,
        to_filename: &[u8],
    ) -> (r: core::result::Result<(), NfsStatus>)
        requires
            old(self).wf(),
        ensures
            final(self).keeps(old(self)),
            old(self).reliable() && r is Ok ==> final(self).stored() == final(self)@.disk.bytes,
            old(self)@.readonly ==> r == Err::<(), NfsStatus>(NfsStatus::Rofs) && final(self)@ == old(
                self,
            )@,
            old(self).reliable() || !(r matches Err(NfsStatus::Io)) || from_dirid != to_dirid || !valid_utf8(
                from_filename@,
            ) || !valid_utf8(to_filename@) ==> (final(self)@, r) == old(self)@.rename(
                from_dirid,
                from_filename@,
                to_dirid,
                to_filename@,
            ),
    {
        match self.check_writable() {
            Ok(_) => {},
            Err(e) => return Err(e),
        }
        if from_dirid != to_dirid {
            return Err(NfsStatus::NotSupp);
        }
        let from_name = match text_of_utf8(from_filename) {
            Some(name) => name,
            None => return Err(NfsStatus::Inval),
        };
        let to_name = match text_of_utf8(to_filename) {
            Some(name) => name,
            None => return Err(NfsStatus::Inval),
        };
        let path = self.resolve_fatx_path(from_dirid, from_name.as_str());
        match self.vol.rename(path.as_str(), to_name.as_str()) {
            Ok(_) => {},
            Err(_) => return Err(NfsStatus::Io),
        }
        let _ = self.vol.flush();
        self.invalidate_dir(id_to_cluster(from_dirid));
        Ok(())
    }

    /// A page of a directory: itself, its parent, then its entries.
    pub fn readdir(&mut self, dirid: u64, start_after: u64, max_entries: usize, now: NfsTime) -> (r:
        core::result::Result<DirPage, NfsStatus>)
        requires
            old(self).wf(),
        ensures
            final(self).keeps(old(self)),
            final(self).stored() == old(self).stored(),
            final(self)@.disk == old(self)@.disk,
            final(self)@.files == old(self)@.files,
            old(self).reliable() || !(r matches Err(NfsStatus::Io)) || old(self)@.knows_listing(dirid) ==> ({
                let (s, a) = old(self)@.readdir(dirid, start_after, max_entries as nat, now);
                &&& final(self)@ == s
                &&& match r {
                    Ok(p) => a == Ok::<(Seq<LineView>, bool), NfsStatus>(
                        (line_views(p.entries@), p.end),
                    ),
                    Err(e) => a == Err::<(Seq<LineView>, bool), NfsStatus>(e),
                }
            }),
    {
        let entries = match self.get_dir_entries(id_to_cluster(dirid)) {
            Ok(entries) => entries,
            Err(e) => return Err(e),
        };
        let own = match self.getattr(dirid, now) {
            Ok(attr) => attr,
            Err(e) => return Err(e),
        };
        let parent = self.parent_id(dirid);
        let above = match self.getattr(parent, now) {
            Ok(attr) => attr,
            Err(e) => return Err(e),
        };
        let mut lines: Vec<DirLine> = Vec::new();
        lines.push(DirLine { fileid: dirid, name: ".".to_owned(), attr: own });
        lines.push(DirLine { fileid: parent, name: "..".to_owned(), attr: above });
        let ghost head = seq![
            LineView { fileid: dirid, name: "."@, attr: own },
            LineView { fileid: parent, name: ".."@, attr: above },
        ];
        let ghost tail = entry_views(entries@).map_values(|e: DirentView| entry_line(e));
        assert(line_views(lines@) =~= head + tail.take(0));
        let mut i: usize = 0;
        while i < entries.len()
            invariant
                i <= entries.len(),
                tail == entry_views(entries@).map_values(|e: DirentView| entry_line(e)),
                line_views(lines@) == head + tail.take(i as int),
            decreases entries.len() - i,
        {
            let ghost before = lines@;
            let e = entries[i];
            let line = DirLine {
                fileid: cluster_to_id(e.first_cluster),
                name: e.filename(),
                attr: dirent_to_fattr(&e),
            };
            lines.push(line);
            assert(tail[i as int] == entry_line(e@));
            assert(line@ == tail[i as int]);
            assert(line_views(lines@) =~= line_views(before).push(tail[i as int]));
            assert(line_views(lines@) =~= head + tail.take(i + 1));
            i = i + 1;
        }
        assert(tail.take(tail.len() as int) =~= tail);
        Ok(take_page(lines, start_after, max_entries))
    }

    /// Symbolic links do not exist on this file system.
    pub fn symlink(&self) -> (r: core::result::Result<(u64, FileAttr), NfsStatus>)
        ensures
            r == Err::<(u64, FileAttr), NfsStatus>(NfsStatus::NotSupp),
    {
        Err(NfsStatus::NotSupp)
    }

    /// Symbolic links do not exist on this file system.
    pub fn readlink(&self) -> (r: core::result::Result<Vec<u8>, NfsStatus>)
        ensures
            r == Err::<Vec<u8>, NfsStatus>(NfsStatus::NotSupp),
    {
        Err(NfsStatus::NotSupp)
    }
}

} // verus!
