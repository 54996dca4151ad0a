//! Where a package goes: its paths, and the place that takes its files.

use vstd::prelude::*;
use crate::device::Device;
use crate::disk::{Disk, Geometry, Stamp};
use crate::error::{ErrView, FatxError, Result};
use crate::path::{trim_len, trim_slashes};
use crate::text::{
    decimal, hexadecimal, push_hex, push_padded_decimal, zero_padded,
};
use crate::types::Superblock;
use crate::volume::{fault, outcome, FatxVolume};
use super::source::{ContentType, TitleExecutionInfo};
use super::BLOCK_SIZE;

verus! {

/// The directories and files of a package.
#[derive(Debug)]
pub struct PackagePaths {
    /// The directory of the title.
    pub title_dir: String,
    /// The directory of the content type in it.
    pub content_dir: String,
    /// The directory of the Data files in that.
    pub data_dir: String,
    /// The header, beside the directory of the Data files.
    pub con_header: String,
}

/// The directories and files of a package, as a mathematical value.
#[verifier::ext_equal]
pub struct PathsView {
    pub title_dir: Seq<char>,
    pub content_dir: Seq<char>,
    pub data_dir: Seq<char>,
    pub con_header: Seq<char>,
}

impl View for PackagePaths {
    type V = PathsView;

    open spec fn view(&self) -> PathsView {
        PathsView {
            title_dir: self.title_dir@,
            content_dir: self.content_dir@,
            data_dir: self.data_dir@,
            con_header: self.con_header@,
        }
    }
}

/// A number as eight hexadecimal digits.
pub open spec fn hex8(n: u32) -> Seq<char> {
    zero_padded(hexadecimal(n as nat), 8)
}

/// The number that a package is filed under.
pub open spec fn package_id(exe: TitleExecutionInfo, content_type: ContentType) -> u32 {
    match content_type {
        ContentType::GamesOnDemand => exe.media_id,
        ContentType::XboxOriginal => exe.title_id,
    }
}

/// The paths of a package in the directory `dest`.
pub open spec fn package_paths(
    dest: Seq<char>,
    exe: TitleExecutionInfo,
    content_type: ContentType,
) -> PathsView {
    let title_dir = dest.take(trim_len(dest) as int) + "/"@ + hex8(exe.title_id);
    let content_dir = title_dir + "/"@ + hex8(content_type.spec_number());
    let con_header = content_dir + "/"@ + hex8(package_id(exe, content_type));
    PathsView { title_dir, content_dir, data_dir: con_header + ".data"@, con_header }
}

/// The path of Data file number `i`.
pub open spec fn part_path(paths: PathsView, i: nat) -> Seq<char> {
    paths.data_dir + "/Data"@ + zero_padded(decimal(i), 4)
}

fn child(dir: &str, number: u32) -> (s: String)
    ensures
        s@ == dir@ + "/"@ + hex8(number),
{
    let mut s = dir.to_owned();
    vstd::string::StringExecFns::append(&mut s, "/");
    push_hex(&mut s, number as u64, 8);
    s
}

impl PackagePaths {
    /// The paths of a package in the directory `dest`.
    pub fn new(dest: &str, exe: &TitleExecutionInfo, content_type: ContentType) -> (p: PackagePaths)
        ensures
            p@ == package_paths(dest@, *exe, content_type),
    {
        let dest_root = trim_slashes(dest);
        let title_dir = child(dest_root.as_str(), exe.title_id);
        let content_dir = child(title_dir.as_str(), content_type.number());
        let id: u32 = match content_type {
            ContentType::GamesOnDemand => exe.media_id,
            ContentType::XboxOriginal => exe.title_id,
        };
        let con_header = child(content_dir.as_str(), id);
        let mut data_dir = con_header.as_str().to_owned();
        vstd::string::StringExecFns::append(&mut data_dir, ".data");
        PackagePaths { title_dir, content_dir, data_dir, con_header }
    }

    /// The path of Data file number `part_index`.
    pub fn part_file_path(&self, part_index: u64) -> (s: String)
        ensures
            s@ == part_path(self@, part_index as nat),
    {
        let mut s = self.data_dir.as_str().to_owned();
        vstd::string::StringExecFns::append(&mut s, "/Data");
        push_padded_decimal(&mut s, part_index, 4);
        s
    }
}

/// The end of a step: the state it leaves, and whether it succeeded.
pub type Step<T> = (T, core::result::Result<(), ErrView>);

/// A place that takes the files of a package.
pub trait GodSink: Sized {
    /// What can be observed of the place.
    type State;

    /// What writing never changes of the place.
    type Fixed;

    /// What can be observed of the place.
    spec fn package_state(&self) -> Self::State;

    /// What writing never changes of the place.
    spec fn fixed(&self) -> Self::Fixed;

    /// What an implementation keeps between calls.
    spec fn ready(&self) -> bool;

    /// The place never fails for reasons of its own.
    spec fn dependable(&self) -> bool;

    /// The first page of a file can be replaced.
    spec fn can_patch(&self) -> bool;

    /// What has been written has been handed to the medium.
    spec fn settled(&self) -> bool;

    /// What making the directories of a package does.
    spec fn after_begin(s: Self::State, paths: PathsView, now: Stamp) -> Step<Self::State>;

    /// What writing a file does.
    spec fn after_write(s: Self::State, path: Seq<char>, data: Seq<u8>, now: Stamp) -> Step<
        Self::State,
    >;

    /// What replacing the first page of a file does.
    spec fn after_patch(s: Self::State, path: Seq<char>, page: Seq<u8>) -> Step<Self::State>;

    /// Makes the directories of a package.
    fn begin(&mut self, paths: &PackagePaths, now: Stamp) -> (r: Result<()>)
        requires
            old(self).ready(),
        ensures
            final(self).ready(),
            final(self).dependable() == old(self).dependable(),
            final(self).fixed() == old(self).fixed(),
            final(self).can_patch() == old(self).can_patch(),
            fault(r) ==> !old(self).dependable(),
            !fault(r) ==> (final(self).package_state(), outcome(r)) == Self::after_begin(
                old(self).package_state(),
                paths@,
                now,
            ),
    ;

    /// Writes a Data file.
    fn write_part(&mut self, path: &str, data: &[u8], now: Stamp) -> (r: Result<()>)
        requires
            old(self).ready(),
        ensures
            final(self).ready(),
            final(self).dependable() == old(self).dependable(),
            final(self).fixed() == old(self).fixed(),
            final(self).can_patch() == old(self).can_patch(),
            fault(r) ==> !old(self).dependable(),
            !fault(r) ==> (final(self).package_state(), outcome(r)) == Self::after_write(
                old(self).package_state(),
                path@,
                data@,
                now,
            ),
    ;

    /// Replaces the first page of a Data file.
    fn write_master_hash(&mut self, path: &str, page: &[u8]) -> (r: Result<()>)
        requires
            old(self).ready(),
            old(self).can_patch(),
            page@.len() == BLOCK_SIZE,
        ensures
            final(self).ready(),
            final(self).dependable() == old(self).dependable(),
            final(self).fixed() == old(self).fixed(),
            final(self).can_patch() == old(self).can_patch(),
            fault(r) ==> !old(self).dependable(),
            !fault(r) ==> (final(self).package_state(), outcome(r)) == Self::after_patch(
                old(self).package_state(),
                path@,
                page@,
            ),
    ;

    /// Writes the header.
    fn write_con_header(&mut self, path: &str, con_bytes: &[u8], now: Stamp) -> (r: Result<()>)
        requires
            old(self).ready(),
        ensures
            final(self).ready(),
            final(self).dependable() == old(self).dependable(),
            final(self).fixed() == old(self).fixed(),
            final(self).can_patch() == old(self).can_patch(),
            fault(r) ==> !old(self).dependable(),
            !fault(r) ==> (final(self).package_state(), outcome(r)) == Self::after_write(
                old(self).package_state(),
                path@,
                con_bytes@,
                now,
            ),
    ;

    /// Hands what has been written to the medium, as far as the place can.
    fn flush_stage(&mut self)
        requires
            old(self).ready(),
        ensures
            final(self).ready(),
            final(self).dependable() == old(self).dependable(),
            final(self).fixed() == old(self).fixed(),
            final(self).can_patch() == old(self).can_patch(),
            final(self).package_state() == old(self).package_state(),
            old(self).dependable() ==> final(self).settled(),
    ;
}

// ---------------------------------------------------------------------------
// Volumes
// ---------------------------------------------------------------------------

impl Disk {
    /// What is left to do after the attempt to make a directory: if the name is taken, it
    /// must be that of a directory.
    pub open spec fn settle_directory(
        self,
        made: core::result::Result<(), ErrView>,
        path: Seq<char>,
    ) -> core::result::Result<(), ErrView> {
        match made {
            Err(ErrView::FileExists(_)) => match self.resolve(path) {
                Err(e) => Err(e),
                Ok(entry) => if entry.is_directory() {
                    Ok(())
                } else {
                    Err(ErrView::NotADirectory(path))
                },
            },
            _ => made,
        }
    }

    /// A directory is made unless there is one.
    pub open spec fn ensure_directory(self, path: Seq<char>, now: Stamp) -> Step<Disk> {
        let (d, made) = self.create_directory(path, now);
        (d, d.settle_directory(made, path))
    }

    /// The directories of a package are made unless there are any.
    pub open spec fn ensure_package(self, paths: PathsView, now: Stamp) -> Step<Disk> {
        let (d1, r1) = self.ensure_directory(paths.title_dir, now);
        let (d2, r2) = d1.ensure_directory(paths.content_dir, now);
        let (d3, r3) = d2.ensure_directory(paths.data_dir, now);
        if r1 is Err {
            (d1, r1)
        } else if r2 is Err {
            (d2, r2)
        } else {
            (d3, r3)
        }
    }

    /// `page` takes the place of the first bytes of a file.
    pub open spec fn patch_head(self, path: Seq<char>, page: Seq<u8>) -> Step<Disk> {
        match self.resolve(path) {
            Err(e) => (self, Err(e)),
            Ok(entry) => match self.read_cluster(entry.first_cluster) {
                Err(e) => (self, Err(e)),
                Ok(b) => match self.write_cluster(
                    entry.first_cluster,
                    page + b.skip(page.len() as int),
                ) {
                    Err(e) => (self, Err(e)),
                    Ok(d) => (d, Ok(())),
                },
            },
        }
    }
}

impl<D: Device> FatxVolume<D> {
    /// Looks at the outcome of an attempt to make a directory.
    fn settle_directory(&mut self, made: Result<()>, path: &str) -> (r: Result<()>)
        requires
            old(self).wf(),
        ensures
            final(self).same_as(old(self)),
            fault(r) ==> fault(made) || !old(self).reliable(),
            !fault(r) ==> !fault(made) && outcome(r) == old(self)@.settle_directory(
                outcome(made),
                path@,
            ),
    {
        match made {
            Ok(_) => Ok(()),
            Err(FatxError::FileExists(_)) => {
                match self.resolve_path(path) {
                    Ok(existing) => {
                        if existing.is_directory() {
                            Ok(())
                        } else {
                            Err(FatxError::NotADirectory(path.to_owned()))
                        }
                    },
                    Err(e) => Err(e),
                }
            },
            Err(e) => Err(e),
        }
    }

    /// Makes a directory unless there is one. A file in its place is an error.
    pub fn ensure_fatx_dir(&mut self, path: &str, now: Stamp) -> (r: Result<()>)
        requires
            old(self).wf(),
        ensures
            final(self).keeps(old(self)),
            fault(r) ==> !old(self).reliable(),
            !fault(r) ==> (final(self)@, outcome(r)) == old(self)@.ensure_directory(path@, now),
    {
        let made = self.create_directory_at(path, now);
        self.settle_directory(made, path)
    }

    /// Replaces the first bytes of a file by those of `new_master`, which must fit in a
    /// cluster.
    pub fn overwrite_part_master(&mut self, path: &str, new_master: &[u8]) -> (r: Result<()>)
        requires
            old(self).wf(),
            new_master@.len() <= old(self)@.geo.cluster_size(),
        ensures
            final(self).keeps(old(self)),
            fault(r) ==> !old(self).reliable(),
            !fault(r) ==> (final(self)@, outcome(r)) == old(self)@.patch_head(
                path@,
                new_master@,
            ),
    {
        let entry = match self.resolve_path(path) {
            Ok(entry) => entry,
            Err(e) => return Err(e),
        };
        let first_cluster = entry.first_cluster;
        let old_buf = match self.cluster_bytes(first_cluster) {
            Ok(buf) => buf,
            Err(e) => return Err(e),
        };
        let mut cluster_buf: Vec<u8> = Vec::new();
        cluster_buf.extend_from_slice(new_master);
        cluster_buf.extend_from_slice(&old_buf[new_master.len()..old_buf.len()]);
        assert(cluster_buf@ =~= new_master@ + old_buf@.skip(new_master@.len() as int));
        self.write_cluster(first_cluster, cluster_buf.as_slice())
    }
}

impl<D: Device> GodSink for FatxVolume<D> {
    type State = Disk;

    type Fixed = (Geometry, nat, u64, Superblock);

    open spec fn package_state(&self) -> Disk {
        self@
    }

    /// Its place and shape, what its device can hold, its size and its superblock.
    open spec fn fixed(&self) -> (Geometry, nat, u64, Superblock) {
        (self@.geo, self@.capacity, self.volume_size(), self.header())
    }

    open spec fn ready(&self) -> bool {
        self.wf()
    }

    open spec fn dependable(&self) -> bool {
        self.reliable()
    }

    open spec fn can_patch(&self) -> bool {
        self@.geo.cluster_size() >= BLOCK_SIZE
    }

    open spec fn settled(&self) -> bool {
        self.stored() == self@.bytes
    }

    open spec fn after_begin(s: Disk, paths: PathsView, now: Stamp) -> Step<Disk> {
        s.ensure_package(paths, now)
    }

    open spec fn after_write(s: Disk, path: Seq<char>, data: Seq<u8>, now: Stamp) -> Step<Disk> {
        s.create_file(path, data, now)
    }

    open spec fn after_patch(s: Disk, path: Seq<char>, page: Seq<u8>) -> Step<Disk> {
        s.patch_head(path, page)
    }

    fn begin(&mut self, paths: &PackagePaths, now: Stamp) -> Result<()> {
        match self.ensure_fatx_dir(paths.title_dir.as_str(), now) {
            Ok(_) => {},
            Err(e) => return Err(e),
        }
        match self.ensure_fatx_dir(paths.content_dir.as_str(), now) {
            Ok(_) => {},
            Err(e) => return Err(e),
        }
        self.ensure_fatx_dir(paths.data_dir.as_str(), now)
    }

    fn write_part(&mut self, path: &str, data: &[u8], now: Stamp) -> Result<()> {
        self.create_file_at(path, data, now)
    }

    fn write_master_hash(&mut self, path: &str, page: &[u8]) -> Result<()> {
        self.overwrite_part_master(path, page)
    }

    fn write_con_header(&mut self, path: &str, con_bytes: &[u8], now: Stamp) -> Result<()> {
        self.create_file_at(path, con_bytes, now)
    }

    fn flush_stage(&mut self) {
        let _ = self.flush();
    }
}

} // verus!
