//! Directories: listing them, finding entries, adding and deleting entries.

use vstd::prelude::*;
use vstd::utf8::encode_utf8;
use crate::bytes::put_u32;
use crate::device::Device;
use crate::dirent::{pad_name, parse_entry, serialize_entry};
use crate::disk::{
    blank, dirent_bytes, find_entry, parse_dirent, renamed_bytes, resized_bytes, Disk,
};
use crate::error::{ErrView, FatxError, IoError, Result};
use crate::types::{
    DirectoryEntry, DirentView, FatEntry, DIRENT_DELETED, DIRENT_END, DIRENT_SIZE, FIRST_CLUSTER,
    MAX_FILENAME_LEN,
};
use crate::volume::{fault, outcome, prepend, seq_outcome, FatxVolume};

verus! {

/// The views of entries.
pub open spec fn entry_views(v: Seq<DirectoryEntry>) -> Seq<DirentView> {
    v.map_values(|e: DirectoryEntry| e@)
}

/// A result that holds entries, taken by its view.
pub open spec fn listing_outcome(r: Result<Vec<DirectoryEntry>>) -> core::result::Result<
    Seq<DirentView>,
    ErrView,
> {
    match r {
        Ok(v) => Ok(entry_views(v@)),
        Err(e) => Err(e@),
    }
}

/// A result that holds an entry, taken by its view.
pub open spec fn entry_outcome(r: Result<DirectoryEntry>) -> core::result::Result<
    DirentView,
    ErrView,
> {
    match r {
        Ok(e) => Ok(e@),
        Err(e) => Err(e@),
    }
}

/// A result that holds a slot, taken as mathematical integers.
pub open spec fn slot_outcome(r: Result<Option<(usize, usize)>>) -> core::result::Result<
    Option<(int, int)>,
    ErrView,
> {
    match r {
        Ok(Some((i, j))) => Ok(Some((i as int, j as int))),
        Ok(None) => Ok(None),
        Err(e) => Err(e@),
    }
}

pub proof fn lemma_find_slot_range(
    d: Disk,
    chain: Seq<u32>,
    name: Seq<char>,
    skip: Option<(int, int)>,
    i: int,
    j: int,
)
    requires
        0 <= i,
        0 <= j,
    ensures
        d.find_slot(chain, name, skip, i, j) matches Ok(Some((p, q))) ==> {
            &&& 0 <= p < chain.len()
            &&& 0 <= q < d.geo.slots()
            &&& d.geo.in_range(chain[p])
            &&& d.slot(chain, p, q, DIRENT_SIZE as nat) is Ok
        },
    decreases chain.len() - i, d.geo.slots() - j,
{
    if i < chain.len() {
        if j >= d.geo.slots() {
            lemma_find_slot_range(d, chain, name, skip, i + 1, 0);
        } else {
            lemma_find_slot_range(d, chain, name, skip, i, j + 1);
        }
    }
}

/// The first entry called `name`.
pub fn find_by_name(entries: &Vec<DirectoryEntry>, name: &str) -> (r: Option<DirectoryEntry>)
    ensures
        match r {
            Some(e) => find_entry(entry_views(entries@), name@) == Some(e@),
            None => find_entry(entry_views(entries@), name@) is None,
        },
{
    let ghost all = entry_views(entries@);
    let mut i: usize = 0;
    assert(all.skip(0) =~= all);
    while i < entries.len()
        invariant
            all == entry_views(entries@),
            i <= entries.len(),
            find_entry(all.skip(i as int), name@) == find_entry(all, name@),
        decreases entries.len() - i,
    {
        assert(all.skip(i as int)[0] == entries@[i as int]@);
        if entries[i].filename().as_str().eq_ignore_ascii_case(name) {
            return Some(entries[i]);
        }
        assert(all.skip(i as int).drop_first() =~= all.skip(i + 1));
        i = i + 1;
    }
    None
}

impl<D: Device> FatxVolume<D> {
    /// Offset of the `j`-th slot of a cluster.
    fn slot_offset(&self, cluster: u32, j: usize) -> (r: Result<u64>)
        requires
            self.wf(),
            j < self@.geo.slots(),
        ensures
            match (r, self@.cluster_offset(cluster)) {
                (Ok(pos), Ok(p)) => {
                    &&& pos == p + j * DIRENT_SIZE
                    &&& self@.geo.base + pos + DIRENT_SIZE <= u64::MAX
                },
                (Err(e), Err(x)) => e@ == x,
                _ => false,
            },
    {
        proof {
            self.lemma_shape();
        }
        match self.cluster_offset(cluster) {
            Ok(pos) => Ok(pos + (j * DIRENT_SIZE) as u64),
            Err(e) => Err(e),
        }
    }

    /// Number of slots in a cluster.
    fn slots_per_cluster(&self) -> (n: usize)
        requires
            self.wf(),
        ensures
            n == self@.geo.slots(),
            8 <= n <= 1024,
    {
        proof {
            self.lemma_shape();
        }
        self.cluster_size() / DIRENT_SIZE
    }

    /// The first `len` bytes of a slot.
    fn read_slot(&mut self, chain: &Vec<u32>, i: usize, j: usize, len: usize) -> (r: Result<Vec<u8>>)
        requires
            old(self).wf(),
            i < chain.len(),
            j < old(self)@.geo.slots(),
            0 < len <= DIRENT_SIZE,
        ensures
            final(self).same_as(old(self)),
            fault(r) ==> !old(self).reliable(),
            !fault(r) ==> seq_outcome(r) == old(self)@.slot(chain@, i as int, j as int, len as nat),
            r matches Ok(b) ==> b@.len() == len,
    {
        let pos = match self.slot_offset(chain[i], j) {
            Ok(pos) => pos,
            Err(e) => return Err(e),
        };
        self.read_at(pos, len)
    }

    /// The entry that is stored at a place of the volume.
    pub fn read_dirent_at(&mut self, partition_rel: u64) -> (r: Result<DirectoryEntry>)
        requires
            old(self).wf(),
            old(self)@.geo.base + partition_rel <= u64::MAX,
        ensures
            final(self).same_as(old(self)),
            fault(r) ==> !old(self).reliable(),
            !fault(r) ==> entry_outcome(r) == old(self)@.dirent_at(partition_rel as nat),
    {
        let big_endian = self.is_big_endian();
        match self.read_at(partition_rel, DIRENT_SIZE) {
            Ok(raw) => Ok(parse_entry(big_endian, raw.as_slice())),
            Err(e) => Err(e),
        }
    }

    /// The 64 bytes that are stored for an entry.
    pub fn serialize_dirent(&self, entry: &DirectoryEntry) -> (raw: Vec<u8>)
        requires
            self.wf(),
        ensures
            raw@ == dirent_bytes(self@.geo.big_endian, entry@),
            raw@.len() == DIRENT_SIZE,
    {
        serialize_entry(self.is_big_endian(), entry)
    }

    /// The entry in a slot.
    fn read_entry(&mut self, chain: &Vec<u32>, i: usize, j: usize) -> (r: Result<DirectoryEntry>)
        requires
            old(self).wf(),
            i < chain.len(),
            j < old(self)@.geo.slots(),
        ensures
            final(self).same_as(old(self)),
            fault(r) ==> !old(self).reliable(),
            !fault(r) ==> match (r, old(self)@.slot(chain@, i as int, j as int, DIRENT_SIZE as nat)) {
                (Ok(e), Ok(raw)) => e@ == parse_dirent(old(self)@.geo.big_endian, raw),
                (Err(e), Err(x)) => e@ == x,
                _ => false,
            },
    {
        match self.slot_offset(chain[i], j) {
            Ok(pos) => self.read_dirent_at(pos),
            Err(e) => Err(e),
        }
    }

    /// The entries of a directory.
    pub fn read_directory(&mut self, first_cluster: u32) -> (r: Result<Vec<DirectoryEntry>>)
        requires
            old(self).wf(),
        ensures
            final(self).same_as(old(self)),
            fault(r) ==> !old(self).reliable(),
            !fault(r) ==> listing_outcome(r) == old(self)@.entries(first_cluster),
    {
        let chain = match self.read_chain(first_cluster) {
            Ok(chain) => chain,
            Err(e) => return Err(e),
        };
        let slots = self.slots_per_cluster();
        let mut entries: Vec<DirectoryEntry> = Vec::new();
        let mut i: usize = 0;
        let mut j: usize = 0;
        let ghost d = self@;
        let ghost want = d.entries_from(chain@, 0, 0);
        assert(prepend(entry_views(entries@), want) == want) by {
            if want is Ok {
                assert(entry_views(entries@) + want->Ok_0 =~= want->Ok_0);
            }
        }
        while i < chain.len()
            invariant
                d == old(self)@,
                self.same_as(old(self)),
                slots == d.geo.slots(),
                want == d.entries_from(chain@, 0, 0),
                d.chain(first_cluster) == Ok::<Seq<u32>, ErrView>(chain@),
                i <= chain.len(),
                j <= slots,
                i == chain.len() ==> j == 0,
                prepend(entry_views(entries@), d.entries_from(chain@, i as int, j as int)) == want,
            decreases chain.len() - i, slots - j,
        {
            if j >= slots {
                i = i + 1;
                j = 0;
            } else {
                let ghost before = entries@;
                let entry = match self.read_entry(&chain, i, j) {
                    Ok(entry) => entry,
                    Err(e) => return Err(e),
                };
                if entry.is_end() {
                    assert(entry_views(entries@) + Seq::<DirentView>::empty() =~= entry_views(
                        entries@,
                    ));
                    return Ok(entries);
                }
                if !entry.is_deleted() {
                    entries.push(entry);
                    proof {
                        let rest = d.entries_from(chain@, i as int, j + 1);
                        if rest is Ok {
                            assert(entry_views(entries@) + rest->Ok_0 =~= entry_views(before) + (
                            seq![entry@] + rest->Ok_0));
                        }
                    }
                }
                j = j + 1;
            }
        }
        assert(entry_views(entries@) + Seq::<DirentView>::empty() =~= entry_views(entries@));
        Ok(entries)
    }

    /// The entries of the root directory.
    pub fn read_root_directory(&mut self) -> (r: Result<Vec<DirectoryEntry>>)
        requires
            old(self).wf(),
        ensures
            final(self).same_as(old(self)),
            fault(r) ==> !old(self).reliable(),
            !fault(r) ==> listing_outcome(r) == old(self)@.entries(FIRST_CLUSTER),
    {
        self.read_directory(FIRST_CLUSTER)
    }

    /// The first slot that holds an entry called `name`, other than the slot `skip`.
    pub(crate) fn find_slot(
        &mut self,
        chain: &Vec<u32>,
        name: &str,
        skip: Option<(usize, usize)>,
    ) -> (r: Result<Option<(usize, usize)>>)
        requires
            old(self).wf(),
        ensures
            final(self).same_as(old(self)),
            fault(r) ==> !old(self).reliable(),
            !fault(r) ==> slot_outcome(r) == old(self)@.find_slot(
                chain@,
                name@,
                skip_view(skip),
                0,
                0,
            ),
    {
        let slots = self.slots_per_cluster();
        let mut i: usize = 0;
        let mut j: usize = 0;
        let ghost d = self@;
        while i < chain.len()
            invariant
                d == old(self)@,
                self.same_as(old(self)),
                slots == d.geo.slots(),
                i <= chain.len(),
                j <= slots,
                d.find_slot(chain@, name@, skip_view(skip), i as int, j as int) == d.find_slot(
                    chain@,
                    name@,
                    skip_view(skip),
                    0,
                    0,
                ),
            decreases chain.len() - i, slots - j,
        {
            if j >= slots {
                i = i + 1;
                j = 0;
            } else {
                let entry = match self.read_entry(chain, i, j) {
                    Ok(entry) => entry,
                    Err(e) => return Err(e),
                };
                if entry.is_end() {
                    return Ok(None);
                }
                let skipped = match skip {
                    Some((p, q)) => p == i && q == j,
                    None => false,
                };
                if !entry.is_deleted() && !skipped && entry.filename().as_str().eq_ignore_ascii_case(
                    name,
                ) {
                    return Ok(Some((i, j)));
                }
                j = j + 1;
            }
        }
        Ok(None)
    }

    /// The first slot that a new entry can go into, and whether it is behind the end of the
    /// directory.
    fn vacant_slot(&mut self, chain: &Vec<u32>) -> (r: Result<Option<(usize, usize, bool)>>)
        requires
            old(self).wf(),
        ensures
            final(self).same_as(old(self)),
            fault(r) ==> !old(self).reliable(),
            !fault(r) ==> match (r, old(self)@.vacant_slot(chain@, 0, 0)) {
                (Ok(Some((i, j, at_end))), Ok(Some((p, q)))) => {
                    &&& i == p
                    &&& j == q
                    &&& i < chain.len()
                    &&& j < old(self)@.geo.slots()
                    &&& old(self)@.geo.in_range(chain@[i as int])
                    &&& at_end == (old(self)@.slot(chain@, p, q, 1)->Ok_0[0] != DIRENT_DELETED)
                },
                (Ok(None), Ok(None)) => true,
                (Err(e), Err(x)) => e@ == x,
                _ => false,
            },
    {
        let slots = self.slots_per_cluster();
        let mut i: usize = 0;
        let mut j: usize = 0;
        let ghost d = self@;
        while i < chain.len()
            invariant
                d == old(self)@,
                self.same_as(old(self)),
                slots == d.geo.slots(),
                i <= chain.len(),
                j <= slots,
                d.vacant_slot(chain@, i as int, j as int) == d.vacant_slot(chain@, 0, 0),
            decreases chain.len() - i, slots - j,
        {
            if j >= slots {
                i = i + 1;
                j = 0;
            } else {
                let marker = match self.read_slot(chain, i, j, 1) {
                    Ok(b) => b[0],
                    Err(e) => return Err(e),
                };
                if marker == DIRENT_END || marker == 0x00 || marker == DIRENT_DELETED {
                    return Ok(Some((i, j, marker != DIRENT_DELETED)));
                }
                j = j + 1;
            }
        }
        Ok(None)
    }

    /// Writes an entry into a slot, and an end marker behind it if it took the end's place.
    fn fill_slot(&mut self, cluster: u32, j: usize, at_end: bool, entry: &DirectoryEntry) -> (r:
        Result<()>)
        requires
            old(self).wf(),
            old(self)@.geo.in_range(cluster),
            j < old(self)@.geo.slots(),
        ensures
            final(self).keeps(old(self)),
            fault(r) ==> !old(self).reliable(),
            !fault(r) ==> (final(self)@, outcome(r)) == old(self)@.fill_slot(
                cluster,
                j as int,
                at_end,
                entry@,
            ),
    {
        let slots = self.slots_per_cluster();
        let pos = match self.slot_offset(cluster, j) {
            Ok(pos) => pos,
            Err(e) => return Err(e),
        };
        let raw = self.serialize_dirent(entry);
        match self.write_at(pos, raw.as_slice()) {
            Ok(_) => {},
            Err(e) => return Err(e),
        }
        if at_end && j + 1 < slots {
            let end: Vec<u8> = vec![DIRENT_END];
            assert(end@ =~= seq![DIRENT_END]);
            return self.write_at(pos + DIRENT_SIZE as u64, end.as_slice());
        }
        Ok(())
    }

    /// Writes an entry of the file allocation table if the device takes it: that the device
    /// is too short for it is no failure here.
    pub(crate) fn try_write_fat_entry(&mut self, cluster: u32, entry: FatEntry) -> (r: Result<()>)
        requires
            old(self).wf(),
        ensures
            final(self).keeps(old(self)),
            r is Err ==> fault(r) && !old(self).reliable(),
            r is Ok ==> final(self)@ == old(self)@.try_write_fat(cluster, entry),
    {
        match self.write_fat_entry(cluster, entry) {
            Ok(_) => Ok(()),
            Err(FatxError::Io(IoError::Device(words))) => Err(FatxError::Io(IoError::Device(words))),
            Err(_) => Ok(()),
        }
    }

    /// Puts an entry into the fresh cluster that becomes the last one of a directory.
    fn fill_new_cluster(&mut self, last: u32, fresh: u32, entry: &DirectoryEntry) -> (r: Result<()>)
        requires
            old(self).wf(),
            old(self)@.geo.in_range(fresh),
        ensures
            final(self).keeps(old(self)),
            fault(r) ==> !old(self).reliable(),
            !fault(r) ==> (final(self)@, outcome(r)) == old(self)@.fill_new_cluster(
                last,
                fresh,
                entry@,
            ),
    {
        match self.write_fat_entry(last, FatEntry::Next(fresh)) {
            Ok(_) => {},
            Err(e) => return Err(e),
        }
        let bytes = self.blank_cluster();
        match self.write_cluster(fresh, bytes.as_slice()) {
            Ok(_) => {},
            Err(e) => return Err(e),
        }
        proof {
            self.lemma_shape();
        }
        self.fill_slot(fresh, 0, true, entry)
    }

    /// A cluster full of end markers.
    pub(crate) fn blank_cluster(&self) -> (bytes: Vec<u8>)
        requires
            self.wf(),
        ensures
            bytes@ == blank(self@.geo.cluster_size()),
    {
        let bytes = vec![0xFFu8; self.cluster_size()];
        assert(bytes@ =~= blank(self@.geo.cluster_size()));
        bytes
    }

    /// Makes a directory one cluster longer and puts an entry into the new cluster. On
    /// failure the directory is given its old end back, and the cluster is freed.
    fn expand_directory(&mut self, chain: &Vec<u32>, entry: &DirectoryEntry) -> (r: Result<()>)
        requires
            old(self).wf(),
            chain.len() > 0,
        ensures
            final(self).keeps(old(self)),
            fault(r) ==> !old(self).reliable(),
            !fault(r) ==> (final(self)@, outcome(r)) == old(self)@.expand_directory(
                chain@,
                entry@,
            ),
    {
        proof {
            lemma_free_in_range(self@, FIRST_CLUSTER as int, 1);
        }
        let fresh = match self.allocate_cluster() {
            Ok(fresh) => fresh,
            Err(e) => return Err(e),
        };
        let last = chain[chain.len() - 1];
        match self.fill_new_cluster(last, fresh, entry) {
            Ok(_) => Ok(()),
            Err(e) => {
                match self.try_write_fat_entry(last, FatEntry::EndOfChain) {
                    Ok(_) => {},
                    Err(broken) => return Err(broken),
                }
                match self.try_write_fat_entry(fresh, FatEntry::Free) {
                    Ok(_) => Err(e),
                    Err(broken) => Err(broken),
                }
            },
        }
    }

    /// Adds an entry to the directory that starts at `parent_cluster`.
    pub(crate) fn add_dirent_to_directory(
        &mut self,
        parent_cluster: u32,
        entry: &DirectoryEntry,
    ) -> (r: Result<()>)
        requires
            old(self).wf(),
        ensures
            final(self).keeps(old(self)),
            fault(r) ==> !old(self).reliable(),
            !fault(r) ==> (final(self)@, outcome(r)) == old(self)@.add_entry(
                parent_cluster,
                entry@,
            ),
    {
        let chain = match self.read_chain(parent_cluster) {
            Ok(chain) => chain,
            Err(e) => return Err(e),
        };
        match self.vacant_slot(&chain) {
            Err(e) => Err(e),
            Ok(Some((i, j, at_end))) => self.fill_slot(chain[i], j, at_end, entry),
            Ok(None) => {
                proof {
                    lemma_chain_not_empty(
                        self@,
                        parent_cluster,
                        (self@.geo.total_clusters + 1) as nat,
                    );
                }
                self.expand_directory(&chain, entry)
            },
        }
    }

    /// Marks the first entry called `name` as deleted.
    pub(crate) fn mark_dirent_deleted(&mut self, parent_cluster: u32, name: &str) -> (r: Result<()>)
        requires
            old(self).wf(),
        ensures
            final(self).keeps(old(self)),
            fault(r) ==> !old(self).reliable(),
            !fault(r) ==> (final(self)@, outcome(r)) == old(self)@.delete_entry(
                parent_cluster,
                name@,
            ),
    {
        let chain = match self.read_chain(parent_cluster) {
            Ok(chain) => chain,
            Err(e) => return Err(e),
        };
        proof {
            lemma_find_slot_range(self@, chain@, name@, None, 0, 0);
        }
        match self.find_slot(&chain, name, None) {
            Err(e) => Err(e),
            Ok(None) => Err(FatxError::FileNotFound(name.to_owned())),
            Ok(Some((i, j))) => {
                let pos = match self.slot_offset(chain[i], j) {
                    Ok(pos) => pos,
                    Err(e) => return Err(e),
                };
                let mark: Vec<u8> = vec![DIRENT_DELETED];
                assert(mark@ =~= seq![DIRENT_DELETED]);
                self.write_at(pos, mark.as_slice())
            },
        }
    }

    /// Sets the size in the first entry called `name`.
    pub(crate) fn resize_entry(&mut self, parent_cluster: u32, name: &str, size: u32) -> (r: Result<
        (),
    >)
        requires
            old(self).wf(),
        ensures
            final(self).keeps(old(self)),
            fault(r) ==> !old(self).reliable(),
            !fault(r) ==> (final(self)@, outcome(r)) == old(self)@.resize_entry(
                parent_cluster,
                name@,
                size,
            ),
    {
        let chain = match self.read_chain(parent_cluster) {
            Ok(chain) => chain,
            Err(e) => return Err(e),
        };
        proof {
            lemma_find_slot_range(self@, chain@, name@, None, 0, 0);
        }
        let (i, j) = match self.find_slot(&chain, name, None) {
            Err(e) => return Err(e),
            Ok(None) => return Err(FatxError::FileNotFound(name.to_owned())),
            Ok(Some((i, j))) => (i, j),
        };
        let old_raw = match self.read_slot(&chain, i, j, DIRENT_SIZE) {
            Ok(raw) => raw,
            Err(e) => return Err(e),
        };
        let pos = match self.slot_offset(chain[i], j) {
            Ok(pos) => pos,
            Err(e) => return Err(e),
        };
        let mut raw: Vec<u8> = Vec::new();
        raw.extend_from_slice(&old_raw[0..48]);
        put_u32(self.is_big_endian(), size, &mut raw);
        raw.extend_from_slice(&old_raw[52..DIRENT_SIZE]);
        assert(raw@ =~= resized_bytes(self@.geo.big_endian, old_raw@, size));
        self.write_at(pos, raw.as_slice())
    }

    /// Gives the first entry called `from` the name `to`, unless another entry has it.
    pub(crate) fn rename_entry(&mut self, chain: &Vec<u32>, from: &str, to: &str) -> (r: Result<()>)
        requires
            old(self).wf(),
            encode_utf8(to@).len() <= MAX_FILENAME_LEN,
        ensures
            final(self).keeps(old(self)),
            fault(r) ==> !old(self).reliable(),
            !fault(r) ==> (final(self)@, outcome(r)) == old(self)@.rename_in(chain@, from@, to@),
    {
        proof {
            lemma_find_slot_range(self@, chain@, from@, None, 0, 0);
        }
        let (i, j) = match self.find_slot(chain, from, None) {
            Err(e) => return Err(e),
            Ok(None) => return Err(FatxError::FileNotFound(from.to_owned())),
            Ok(Some((i, j))) => (i, j),
        };
        match self.find_slot(chain, to, Some((i, j))) {
            Err(e) => return Err(e),
            Ok(Some(_)) => return Err(FatxError::FileExists(to.to_owned())),
            Ok(None) => {},
        }
        let old_raw = match self.read_slot(chain, i, j, DIRENT_SIZE) {
            Ok(raw) => raw,
            Err(e) => return Err(e),
        };
        let pos = match self.slot_offset(chain[i], j) {
            Ok(pos) => pos,
            Err(e) => return Err(e),
        };
        let mut raw: Vec<u8> = Vec::new();
        raw.push(to.as_bytes().len() as u8);
        raw.push(old_raw[1]);
        raw.extend_from_slice(pad_name(to).as_slice());
        raw.extend_from_slice(&old_raw[2 + MAX_FILENAME_LEN..DIRENT_SIZE]);
        assert(raw@ =~= renamed_bytes(old_raw@, to@));
        self.write_at(pos, raw.as_slice())
    }
}

/// A chain has at least one cluster.
pub proof fn lemma_chain_not_empty(d: Disk, cluster: u32, fuel: nat)
    ensures
        d.chain_from(cluster, fuel) matches Ok(chain) ==> chain.len() > 0 && chain[0] == cluster,
{
}

/// Free clusters are clusters of the volume.
pub proof fn lemma_free_in_range(d: Disk, c: int, count: nat)
    requires
        1 <= c,
    ensures
        d.free_from(c, count) matches Ok(list) ==> {
            &&& list.len() <= count
            &&& forall|k: int|
                0 <= k < list.len() ==> {
                    &&& d.geo.in_range(#[trigger] list[k])
                    &&& c <= list[k]
                    &&& d.read_fat(list[k]) == Ok::<FatEntry, ErrView>(FatEntry::Free)
                }
            &&& forall|k: int, l: int| 0 <= k < l < list.len() ==> list[k] < list[l]
        },
    decreases d.geo.total_clusters + 1 - c,
{
    if count > 0 && c <= d.geo.total_clusters {
        lemma_free_in_range(d, c + 1, count);
        lemma_free_in_range(d, c + 1, (count - 1) as nat);
    }
}

/// A slot taken as mathematical integers.
pub open spec fn skip_view(skip: Option<(usize, usize)>) -> Option<(int, int)> {
    match skip {
        Some((p, q)) => Some((p as int, q as int)),
        None => None,
    }
}

} // verus!
