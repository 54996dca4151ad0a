//! Files and directories by path: resolving, reading, creating, deleting, renaming.

use vstd::prelude::*;
use crate::clock::{local_time, stamp_of, stamp_spec, LocalTime};
use crate::device::Device;
use crate::dirent::{make_entry, make_root_entry, validate_filename};
use crate::directory::{find_by_name, lemma_chain_not_empty};
use crate::disk::{chunk, clusters_needed, Stamp};
use crate::error::{ErrView, FatxError, Result};
use crate::path::{name_of, parent_of, parts, path_parts, split_path, strings_view};
use crate::types::{DirectoryEntry, DirentView, FatEntry, FileAttributes, FIRST_CLUSTER};
use crate::volume::{fault, outcome, prepend, seq_outcome, FatxVolume};

verus! {

/// A result that holds an entry, taken by its view.
pub open spec fn entry_outcome(r: Result<DirectoryEntry>) -> core::result::Result<
    DirentView,
    ErrView,
> {
    match r {
        Ok(e) => Ok(e@),
        Err(e) => Err(e@),
    }
}

/// The moment is one that a clock can show.
pub open spec fn is_local_time(t: LocalTime) -> bool {
    1 <= t.month <= 12 && 1 <= t.day <= 31 && t.hour <= 23 && t.minute <= 59 && t.second <= 59
}

proof fn lemma_clusters_needed(len: nat, size: nat)
    requires
        len > 0,
        size > 0,
    ensures
        clusters_needed(len, size) == (len - 1) / size as int + 1,
{
    assert((len + size - 1) / size as int == (len - 1) / size as int + 1) by {
        vstd::arithmetic::div_mod::lemma_div_plus_one(len - 1, size as int);
    }
    vstd::arithmetic::div_mod::lemma_div_pos_is_pos(len - 1, size as int);
}

impl<D: Device> FatxVolume<D> {
    /// The entry that a path like "/saves/game1.sav" leads to.
    pub fn resolve_path(&mut self, path: &str) -> (r: Result<DirectoryEntry>)
        requires
            old(self).wf(),
        ensures
            final(self).same_as(old(self)),
            fault(r) ==> !old(self).reliable(),
            !fault(r) ==> entry_outcome(r) == old(self)@.resolve(path@),
    {
        let names = path_parts(path);
        let ghost all = strings_view(names@);
        let ghost d = self@;
        let mut cluster: u32 = FIRST_CLUSTER;
        let mut i: usize = 0;
        while i < names.len()
            invariant
                d == old(self)@,
                self.same_as(old(self)),
                all == strings_view(names@),
                all == parts(path@),
                i < names.len() || names.len() == 0,
                d.resolve_from(cluster, all, i as int) == d.resolve(path@),
            decreases names.len() - i,
        {
            let name = names[i].as_str();
            assert(name@ == all[i as int]);
            let entries = match self.read_directory(cluster) {
                Ok(entries) => entries,
                Err(e) => return Err(e),
            };
            match find_by_name(&entries, name) {
                None => return Err(FatxError::FileNotFound(name.to_owned())),
                Some(entry) => {
                    if i == names.len() - 1 {
                        return Ok(entry);
                    }
                    if !entry.is_directory() {
                        return Err(FatxError::NotADirectory(name.to_owned()));
                    }
                    cluster = entry.first_cluster;
                },
            }
            i = i + 1;
        }
        Ok(make_root_entry())
    }

    /// The first `size` bytes of the clusters from number `from` of `chain` on.
    fn read_clusters(&mut self, chain: &Vec<u32>, from: usize, size: usize) -> (r: Result<Vec<u8>>)
        requires
            old(self).wf(),
            from <= chain.len(),
        ensures
            final(self).same_as(old(self)),
            fault(r) ==> !old(self).reliable(),
            !fault(r) ==> seq_outcome(r) == old(self)@.read_data(chain@, from as int, size as nat),
    {
        let cluster_size = self.cluster_size();
        let mut data: Vec<u8> = Vec::new();
        let mut remaining: usize = size;
        let mut i: usize = from;
        let ghost d = self@;
        let ghost want = d.read_data(chain@, from as int, size as nat);
        assert(prepend(data@, want) == want) by {
            if want is Ok {
                assert(data@ + want->Ok_0 =~= want->Ok_0);
            }
        }
        while i < chain.len()
            invariant
                d == old(self)@,
                self.same_as(old(self)),
                cluster_size == d.geo.cluster_size(),
                cluster_size > 0,
                i <= chain.len(),
                want == d.read_data(chain@, from as int, size as nat),
                prepend(data@, d.read_data(chain@, i as int, remaining as nat)) == want,
            decreases chain.len() - i,
        {
            let ghost before = data@;
            let n: usize = if remaining < cluster_size { remaining } else { cluster_size };
            let buf = match self.cluster_bytes(chain[i]) {
                Ok(buf) => buf,
                Err(e) => return Err(e),
            };
            data.extend_from_slice(&buf[0..n]);
            assert(buf@.subrange(0, n as int) =~= buf@.take(n as int));
            assert(data@ =~= before + buf@.take(n as int));
            if remaining == n {
                return Ok(data);
            }
            proof {
                let rest = d.read_data(chain@, i + 1, (remaining - n) as nat);
                if rest is Ok {
                    assert(data@ + rest->Ok_0 =~= before + (buf@.take(n as int) + rest->Ok_0));
                }
            }
            remaining = remaining - n;
            i = i + 1;
        }
        assert(data@ + Seq::<u8>::empty() =~= data@);
        Ok(data)
    }

    /// The contents of a file.
    pub fn read_file(&mut self, entry: &DirectoryEntry) -> (r: Result<Vec<u8>>)
        requires
            old(self).wf(),
        ensures
            final(self).same_as(old(self)),
            fault(r) ==> !old(self).reliable(),
            !fault(r) ==> seq_outcome(r) == old(self)@.read_file(entry@),
    {
        if entry.is_directory() {
            return Err(FatxError::IsADirectory(entry.filename()));
        }
        let chain = match self.read_chain(entry.first_cluster) {
            Ok(chain) => chain,
            Err(e) => return Err(e),
        };
        self.read_clusters(&chain, 0, entry.file_size as usize)
    }

    /// At most `len` bytes of a file from `offset` on; fewer where the file ends.
    pub fn read_file_range(&mut self, entry: &DirectoryEntry, offset: u32, len: usize) -> (r: Result<
        Vec<u8>,
    >)
        requires
            old(self).wf(),
        ensures
            final(self).same_as(old(self)),
            fault(r) ==> !old(self).reliable(),
            !fault(r) ==> seq_outcome(r) == old(self)@.read_range(
                entry@,
                offset as nat,
                len as nat,
            ),
    {
        if entry.is_directory() {
            return Err(FatxError::IsADirectory(entry.filename()));
        }
        let chain = match self.read_chain(entry.first_cluster) {
            Ok(chain) => chain,
            Err(e) => return Err(e),
        };
        if offset >= entry.file_size || len == 0 {
            return Ok(Vec::new());
        }
        let rest: usize = (entry.file_size - offset) as usize;
        let n: usize = if len < rest { len } else { rest };
        let size = self.cluster_size();
        let first: usize = offset as usize / size;
        let skip: usize = offset as usize % size;
        if first >= chain.len() {
            return Ok(Vec::new());
        }
        assert(skip + n <= offset + n) by {
            vstd::arithmetic::div_mod::lemma_mod_decreases(offset as nat, size as nat);
        }
        let data = match self.read_clusters(&chain, first, skip + n) {
            Ok(data) => data,
            Err(e) => return Err(e),
        };
        if data.len() <= skip {
            return Ok(Vec::new());
        }
        let mut out: Vec<u8> = Vec::new();
        out.extend_from_slice(&data[skip..data.len()]);
        assert(out@ =~= data@.skip(skip as int));
        Ok(out)
    }

    /// The contents of the file that a path leads to.
    pub fn read_file_by_path(&mut self, path: &str) -> (r: Result<Vec<u8>>)
        requires
            old(self).wf(),
        ensures
            final(self).same_as(old(self)),
            fault(r) ==> !old(self).reliable(),
            !fault(r) ==> seq_outcome(r) == old(self)@.read_path(path@),
    {
        match self.resolve_path(path) {
            Ok(entry) => self.read_file(&entry),
            Err(e) => Err(e),
        }
    }

    /// The directory that a new entry goes into.
    fn parent_for(&mut self, parent_path: &str, name: &str, Ghost(path): Ghost<Seq<char>>) -> (r:
        Result<DirectoryEntry>)
        requires
            old(self).wf(),
            parent_path@ == parent_of(path),
            name@ == name_of(path),
        ensures
            final(self).same_as(old(self)),
            fault(r) ==> !old(self).reliable(),
            !fault(r) ==> entry_outcome(r) == old(self)@.parent_for(path),
    {
        match validate_filename(name) {
            Ok(_) => {},
            Err(e) => return Err(e),
        }
        let parent = match self.resolve_path(parent_path) {
            Ok(parent) => parent,
            Err(e) => return Err(e),
        };
        if !parent.is_directory() {
            return Err(FatxError::NotADirectory(parent_path.to_owned()));
        }
        Ok(parent)
    }

    /// Writes `data` into the clusters of `chain`, the last one filled up with zeros.
    fn write_chain(&mut self, chain: &Vec<u32>, data: &[u8]) -> (r: Result<()>)
        requires
            old(self).wf(),
        ensures
            final(self).keeps(old(self)),
            fault(r) ==> !old(self).reliable(),
            !fault(r) ==> (final(self)@, outcome(r)) == old(self)@.write_data(chain@, data@, 0),
    {
        let size = self.cluster_size();
        let mut i: usize = 0;
        let mut offset: usize = 0;
        while i < chain.len() && offset < data.len()
            invariant
                old(self).wf(),
                self.keeps(old(self)),
                size == self@.geo.cluster_size(),
                size > 0,
                i <= chain.len(),
                offset <= data.len(),
                offset == i * size || (offset == data.len() && i * size >= data.len()),
                self@.write_data(chain@, data@, i as int) == old(self)@.write_data(
                    chain@,
                    data@,
                    0,
                ),
            decreases chain.len() - i,
        {
            let end: usize = if data.len() - offset < size { data.len() } else { offset + size };
            let mut buf: Vec<u8> = Vec::new();
            buf.extend_from_slice(vstd::slice::slice_subrange(data, offset, end));
            let ghost part = buf@;
            buf.resize(size, 0);
            proof {
                assert(offset == i * size);
                assert(part =~= data@.subrange(offset as int, end as int));
                let whole = chunk(data@, size as nat, i as int);
                assert forall|k: int| 0 <= k < size implies buf@[k] == whole[k] by {
                    if k < part.len() {
                        assert(buf@[k] == part[k]);
                    }
                }
            }
            assert(buf@ =~= chunk(data@, size as nat, i as int));
            match self.write_cluster(chain[i], buf.as_slice()) {
                Ok(_) => {},
                Err(e) => return Err(e),
            }
            assert((i + 1) * size == i * size + size) by (nonlinear_arith);
            offset = end;
            i = i + 1;
        }
        Ok(())
    }

    /// The number of clusters that a file with the contents `data` takes.
    fn count_clusters(&self, data: &[u8]) -> (count: usize)
        requires
            self.wf(),
        ensures
            count == clusters_needed(data@.len(), self@.geo.cluster_size()),
            count > 0,
    {
        let size = self.cluster_size();
        if data.len() == 0 {
            1
        } else {
            proof {
                lemma_clusters_needed(data@.len(), size as nat);
                vstd::arithmetic::div_mod::lemma_div_is_ordered_by_denominator(
                    data.len() - 1,
                    1,
                    size as int,
                );
            }
            (data.len() - 1) / size + 1
        }
    }

    /// Creates a file with its time stamps set to `now`.
    pub fn create_file_at(&mut self, path: &str, data: &[u8], now: Stamp) -> (r: Result<()>)
        requires
            old(self).wf(),
        ensures
            final(self).keeps(old(self)),
            fault(r) ==> !old(self).reliable(),
            !fault(r) ==> (final(self)@, outcome(r)) == old(self)@.create_file(path@, data@, now),
    {
        let (parent_path, name) = split_path(path);
        let parent = match self.parent_for(parent_path, name, Ghost(path@)) {
            Ok(parent) => parent,
            Err(e) => return Err(e),
        };
        let count = self.count_clusters(data);
        let first = match self.allocate_chain(count) {
            Ok(first) => first,
            Err(e) => return Err(e),
        };
        let chain = match self.read_chain(first) {
            Ok(chain) => chain,
            Err(e) => return Err(e),
        };
        match self.write_chain(&chain, data) {
            Ok(_) => {},
            Err(e) => return Err(e),
        }
        let file_size: u32 = (data.len() as u64 % 0x1_0000_0000) as u32;
        let entry = make_entry(name, FileAttributes::ARCHIVE, first, file_size, now);
        self.add_dirent_to_directory(parent.first_cluster, &entry)
    }

    /// Creates a file, with its time stamps set to the local time.
    pub fn create_file(&mut self, path: &str, data: &[u8]) -> (r: Result<()>)
        requires
            old(self).wf(),
        ensures
            final(self).keeps(old(self)),
            fault(r) ==> !old(self).reliable(),
            !fault(r) ==> exists|t: LocalTime|
                is_local_time(t) && (final(self)@, outcome(r)) == old(self)@.create_file(
                    path@,
                    data@,
                    #[trigger] stamp_spec(t),
                ),
    {
        let t = local_time();
        let now = stamp_of(&t);
        assert(now == stamp_spec(t));
        self.create_file_at(path, data, now)
    }

    /// Adds clusters to a chain or frees clusters at its end, so that there are `count`.
    fn fit_chain(&mut self, chain: Vec<u32>, count: usize) -> (r: Result<Vec<u32>>)
        requires
            old(self).wf(),
            chain@.len() > 0,
            count > 0,
        ensures
            final(self).keeps(old(self)),
            fault(r) ==> !old(self).reliable(),
            !fault(r) ==> (final(self)@, seq_outcome(r)) == old(self)@.fit_chain(
                chain@,
                count as nat,
            ),
    {
        let n: usize = chain.len();
        if count > n {
            let more = match self.allocate_chain(count - n) {
                Ok(more) => more,
                Err(e) => return Err(e),
            };
            match self.write_fat_entry(chain[n - 1], FatEntry::Next(more)) {
                Ok(_) => {},
                Err(e) => return Err(e),
            }
            self.read_chain(chain[0])
        } else if count < n {
            match self.write_fat_entry(chain[count - 1], FatEntry::EndOfChain) {
                Ok(_) => {},
                Err(e) => return Err(e),
            }
            let mut kept = chain;
            let rest = kept.split_off(count);
            assert(rest@ =~= chain@.skip(count as int));
            assert(kept@ =~= chain@.take(count as int));
            match self.free_clusters(&rest) {
                Ok(_) => Ok(kept),
                Err(e) => Err(e),
            }
        } else {
            Ok(chain)
        }
    }

    /// Replaces the contents of a file. Its clusters are used again; as many as needed are
    /// added or freed.
    pub fn write_file_in_place(&mut self, path: &str, data: &[u8]) -> (r: Result<()>)
        requires
            old(self).wf(),
        ensures
            final(self).keeps(old(self)),
            fault(r) ==> !old(self).reliable(),
            !fault(r) ==> (final(self)@, outcome(r)) == old(self)@.rewrite_file(path@, data@),
    {
        let (parent_path, name) = split_path(path);
        let parent = match self.resolve_path(parent_path) {
            Ok(parent) => parent,
            Err(e) => return Err(e),
        };
        let target = match self.resolve_path(path) {
            Ok(target) => target,
            Err(e) => return Err(e),
        };
        if target.is_directory() {
            return Err(FatxError::IsADirectory(path.to_owned()));
        }
        let chain = match self.read_chain(target.first_cluster) {
            Ok(chain) => chain,
            Err(e) => return Err(e),
        };
        proof {
            lemma_chain_not_empty(
                self@,
                target.first_cluster,
                (self@.geo.total_clusters + 1) as nat,
            );
        }
        let count = self.count_clusters(data);
        let list = match self.fit_chain(chain, count) {
            Ok(list) => list,
            Err(e) => return Err(e),
        };
        match self.write_chain(&list, data) {
            Ok(_) => {},
            Err(e) => return Err(e),
        }
        let size: u32 = (data.len() as u64 % 0x1_0000_0000) as u32;
        self.resize_entry(parent.first_cluster, name, size)
    }

    /// Fills a fresh cluster with end markers and enters it in a directory.
    fn enter_directory(&mut self, parent: u32, name: &str, fresh: u32, now: Stamp) -> (r: Result<()>)
        requires
            old(self).wf(),
            vstd::utf8::encode_utf8(name@).len() <= crate::types::MAX_FILENAME_LEN,
        ensures
            final(self).keeps(old(self)),
            fault(r) ==> !old(self).reliable(),
            !fault(r) ==> (final(self)@, outcome(r)) == old(self)@.enter_directory(
                parent,
                name@,
                fresh,
                now,
            ),
    {
        let bytes = self.blank_cluster();
        match self.write_cluster(fresh, bytes.as_slice()) {
            Ok(_) => {},
            Err(e) => return Err(e),
        }
        let entry = make_entry(name, FileAttributes::DIRECTORY, fresh, 0, now);
        self.add_dirent_to_directory(parent, &entry)
    }

    /// Creates a directory with its time stamps set to `now`. On failure the cluster taken
    /// for it is freed.
    pub fn create_directory_at(&mut self, path: &str, now: Stamp) -> (r: Result<()>)
        requires
            old(self).wf(),
        ensures
            final(self).keeps(old(self)),
            fault(r) ==> !old(self).reliable(),
            !fault(r) ==> (final(self)@, outcome(r)) == old(self)@.create_directory(path@, now),
    {
        let (parent_path, name) = split_path(path);
        let parent = match self.parent_for(parent_path, name, Ghost(path@)) {
            Ok(parent) => parent,
            Err(e) => return Err(e),
        };
        let entries = match self.read_directory(parent.first_cluster) {
            Ok(entries) => entries,
            Err(e) => return Err(e),
        };
        if find_by_name(&entries, name).is_some() {
            return Err(FatxError::FileExists(path.to_owned()));
        }
        let fresh = match self.allocate_cluster() {
            Ok(fresh) => fresh,
            Err(e) => return Err(e),
        };
        match self.enter_directory(parent.first_cluster, name, fresh, now) {
            Ok(_) => Ok(()),
            Err(e) => match self.try_write_fat_entry(fresh, FatEntry::Free) {
                Ok(_) => Err(e),
                Err(broken) => Err(broken),
            },
        }
    }

    /// Creates a directory, with its time stamps set to the local time.
    pub fn create_directory(&mut self, path: &str) -> (r: Result<()>)
        requires
            old(self).wf(),
        ensures
            final(self).keeps(old(self)),
            fault(r) ==> !old(self).reliable(),
            !fault(r) ==> exists|t: LocalTime|
                is_local_time(t) && (final(self)@, outcome(r)) == old(self)@.create_directory(
                    path@,
                    #[trigger] stamp_spec(t),
                ),
    {
        let t = local_time();
        let now = stamp_of(&t);
        assert(now == stamp_spec(t));
        self.create_directory_at(path, now)
    }

    /// Deletes a file or an empty directory.
    pub fn delete(&mut self, path: &str) -> (r: Result<()>)
        requires
            old(self).wf(),
        ensures
            final(self).keeps(old(self)),
            fault(r) ==> !old(self).reliable(),
            !fault(r) ==> (final(self)@, outcome(r)) == old(self)@.delete(path@),
    {
        let (parent_path, name) = split_path(path);
        let parent = match self.resolve_path(parent_path) {
            Ok(parent) => parent,
            Err(e) => return Err(e),
        };
        let target = match self.resolve_path(path) {
            Ok(target) => target,
            Err(e) => return Err(e),
        };
        if target.is_directory() {
            match self.read_directory(target.first_cluster) {
                Ok(contents) => {
                    if contents.len() > 0 {
                        return Err(FatxError::DirectoryNotEmpty(path.to_owned()));
                    }
                },
                Err(e) => return Err(e),
            }
        }
        match self.free_chain(target.first_cluster) {
            Ok(_) => {},
            Err(e) => return Err(e),
        }
        self.mark_dirent_deleted(parent.first_cluster, name)
    }

    /// Gives a file or directory another name in the same directory. A name that another
    /// entry of the directory has is refused.
    pub fn rename(&mut self, old_path: &str, new_name: &str) -> (r: Result<()>)
        requires
            old(self).wf(),
        ensures
            final(self).keeps(old(self)),
            fault(r) ==> !old(self).reliable(),
            !fault(r) ==> (final(self)@, outcome(r)) == old(self)@.rename(old_path@, new_name@),
    {
        match validate_filename(new_name) {
            Ok(_) => {},
            Err(e) => return Err(e),
        }
        let (parent_path, old_name) = split_path(old_path);
        let parent = match self.resolve_path(parent_path) {
            Ok(parent) => parent,
            Err(e) => return Err(e),
        };
        let chain = match self.read_chain(parent.first_cluster) {
            Ok(chain) => chain,
            Err(e) => return Err(e),
        };
        self.rename_entry(&chain, old_name, new_name)
    }
}

} // verus!
