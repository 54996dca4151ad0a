//! The mathematical model of a volume: what its bytes mean, and what every operation
//! makes of them.
//!
//! A [`Disk`] is the bytes of a device together with the place and shape of one volume on
//! it. Operations that read give a `Result`; operations that write give the disk after the
//! operation and a `Result`, so that the state left behind by a failed operation is stated
//! as well.

use vstd::prelude::*;
use vstd::utf8::encode_utf8;
use crate::bytes::{spec_u16, spec_u32, u16_bytes, u32_bytes};
use crate::device::{splice, MAX_DEVICE_SIZE};
use crate::error::{ErrView, IoKind};
use crate::path::{name_of, parent_of, parts};
use crate::text::same_name;
use crate::types::{
    is_end_marker, DirentView, FatEntry, FatType, FileAttributes, DIRENT_DELETED, DIRENT_END,
    DIRENT_SIZE, FAT16_BAD, FAT16_EOC, FAT16_FREE, FAT32_BAD, FAT32_EOC, FAT32_FREE, FIRST_CLUSTER,
    MAX_FILENAME_LEN, SECTOR_SIZE, SUPERBLOCK_SIZE,
};

verus! {

/// `n` rounded up to a multiple of a sector.
pub open spec fn sector_ceil(n: int) -> int {
    (n + 511) / 512 * 512
}

/// `n` rounded up to a multiple of 4 KiB.
pub open spec fn page_ceil(n: int) -> int {
    (n + 4095) / 4096 * 4096
}

/// Where a volume lies on its device and how it is divided up.
#[verifier::ext_equal]
pub struct Geometry {
    /// Offset of the volume on the device.
    pub base: nat,
    /// Numbers are stored with the most significant byte first.
    pub big_endian: bool,
    pub fat_type: FatType,
    /// Clusters are numbered from 1 to this number.
    pub total_clusters: u32,
    pub sectors_per_cluster: u32,
    /// Offset of the first cluster from the start of the volume.
    pub data_offset: nat,
}

impl Geometry {
    pub open spec fn cluster_size(self) -> nat {
        (self.sectors_per_cluster * SECTOR_SIZE) as nat
    }

    /// Number of directory entries in a cluster.
    pub open spec fn slots(self) -> nat {
        (self.sectors_per_cluster * 8) as nat
    }

    pub open spec fn in_range(self, cluster: u32) -> bool {
        FIRST_CLUSTER <= cluster <= self.total_clusters
    }

    /// Offset of a cluster's entry in the file allocation table.
    pub open spec fn fat_pos(self, cluster: u32) -> nat {
        (SUPERBLOCK_SIZE + cluster * self.fat_type.width()) as nat
    }

    /// Offset of a cluster.
    pub open spec fn cluster_pos(self, cluster: u32) -> nat {
        (self.data_offset + (cluster - FIRST_CLUSTER) * self.cluster_size()) as nat
    }

    pub open spec fn valid(self) -> bool {
        &&& 1 <= self.sectors_per_cluster <= 128
        &&& self.base <= MAX_DEVICE_SIZE
        &&& self.data_offset == SUPERBLOCK_SIZE + page_ceil(
            self.total_clusters * self.fat_type.width(),
        )
    }
}

/// What the bytes of an entry of the file allocation table mean.
pub open spec fn decode_fat(fat_type: FatType, big_endian: bool, b: Seq<u8>) -> FatEntry {
    match fat_type {
        FatType::Fat16 => {
            let v = spec_u16(big_endian, b);
            if v == FAT16_FREE {
                FatEntry::Free
            } else if v == FAT16_BAD {
                FatEntry::Bad
            } else if v >= FAT16_EOC {
                FatEntry::EndOfChain
            } else {
                FatEntry::Next(v as u32)
            }
        },
        FatType::Fat32 => {
            let v = spec_u32(big_endian, b);
            if v == FAT32_FREE {
                FatEntry::Free
            } else if v == FAT32_BAD {
                FatEntry::Bad
            } else if v >= FAT32_EOC {
                FatEntry::EndOfChain
            } else {
                FatEntry::Next(v)
            }
        },
    }
}

/// The number that stands for an entry. A 16-bit entry keeps the low 16 bits of a cluster
/// number.
pub open spec fn fat_value(fat_type: FatType, entry: FatEntry) -> u32 {
    match fat_type {
        FatType::Fat16 => match entry {
            FatEntry::Free => FAT16_FREE as u32,
            FatEntry::EndOfChain => FAT16_EOC as u32,
            FatEntry::Bad => FAT16_BAD as u32,
            FatEntry::Next(c) => (c % 0x1_0000) as u32,
        },
        FatType::Fat32 => match entry {
            FatEntry::Free => FAT32_FREE,
            FatEntry::EndOfChain => FAT32_EOC,
            FatEntry::Bad => FAT32_BAD,
            FatEntry::Next(c) => c,
        },
    }
}

/// The bytes of an entry of the file allocation table.
pub open spec fn encode_fat(fat_type: FatType, big_endian: bool, entry: FatEntry) -> Seq<u8> {
    match fat_type {
        FatType::Fat16 => u16_bytes(big_endian, fat_value(fat_type, entry) as u16),
        FatType::Fat32 => u32_bytes(big_endian, fat_value(fat_type, entry)),
    }
}

/// The entry means the same when it is read back: a link to cluster 0, or to one of the
/// numbers that stand for something else, does not.
pub open spec fn encodable(fat_type: FatType, entry: FatEntry) -> bool {
    entry matches FatEntry::Next(c) ==> match fat_type {
        FatType::Fat16 => 0 < c < FAT16_BAD,
        FatType::Fat32 => 0 < c < FAT32_BAD,
    }
}

/// A directory entry made of the 64 bytes that are stored.
pub open spec fn parse_dirent(big_endian: bool, b: Seq<u8>) -> DirentView {
    let short = |i: int| spec_u16(big_endian, b.subrange(i, i + 2));
    let word = |i: int| spec_u32(big_endian, b.subrange(i, i + 4));
    // Each stamp is a time and a date: in this order on FATX, the other way round on XTAF.
    let t = if big_endian { 2int } else { 0int };
    let d = 2 - t;
    DirentView {
        filename_len: b[0],
        attributes: FileAttributes { bits: b[1] & 0x3F },
        filename_raw: b.subrange(2, 44),
        first_cluster: word(44),
        file_size: word(48),
        creation_time: short(52 + t),
        creation_date: short(52 + d),
        write_time: short(56 + t),
        write_date: short(56 + d),
        access_time: short(60 + t),
        access_date: short(60 + d),
    }
}

/// The bytes of a time stamp.
pub open spec fn stamp_bytes(big_endian: bool, time: u16, date: u16) -> Seq<u8> {
    if big_endian {
        u16_bytes(big_endian, date) + u16_bytes(big_endian, time)
    } else {
        u16_bytes(big_endian, time) + u16_bytes(big_endian, date)
    }
}

/// The 64 bytes that are stored for a directory entry.
pub open spec fn dirent_bytes(big_endian: bool, e: DirentView) -> Seq<u8> {
    seq![e.filename_len, e.attributes.bits] + e.filename_raw + u32_bytes(
        big_endian,
        e.first_cluster,
    ) + u32_bytes(big_endian, e.file_size) + stamp_bytes(
        big_endian,
        e.creation_time,
        e.creation_date,
    ) + stamp_bytes(big_endian, e.write_time, e.write_date) + stamp_bytes(
        big_endian,
        e.access_time,
        e.access_date,
    )
}

/// A name as it is stored: padded with 0xFF to its full width.
pub open spec fn padded_name(name: Seq<char>) -> Seq<u8> {
    let b = encode_utf8(name);
    Seq::new(MAX_FILENAME_LEN as nat, |i: int| if i < b.len() { b[i] } else { 0xFFu8 })
}

/// The entry of the root directory, which is stored nowhere.
pub open spec fn root_entry() -> DirentView {
    DirentView {
        filename_len: 1,
        attributes: FileAttributes { bits: FileAttributes::DIRECTORY },
        filename_raw: Seq::new(MAX_FILENAME_LEN as nat, |i: int| 0xFFu8),
        first_cluster: FIRST_CLUSTER,
        file_size: 0,
        creation_time: 0,
        creation_date: 0,
        write_time: 0,
        write_date: 0,
        access_time: 0,
        access_date: 0,
    }
}

/// A date and a time in packed form.
#[derive(Debug, Clone, Copy, PartialEq, Eq, Structural)]
pub struct Stamp {
    pub date: u16,
    pub time: u16,
}

/// The entry of something new, with all its time stamps the same.
pub open spec fn new_entry(
    name: Seq<char>,
    attributes: u8,
    first_cluster: u32,
    file_size: u32,
    now: Stamp,
) -> DirentView {
    DirentView {
        filename_len: encode_utf8(name).len() as u8,
        attributes: FileAttributes { bits: attributes },
        filename_raw: padded_name(name),
        first_cluster,
        file_size,
        creation_time: now.time,
        creation_date: now.date,
        write_time: now.time,
        write_date: now.date,
        access_time: now.time,
        access_date: now.date,
    }
}

/// The bytes of a directory entry after its name has been replaced.
pub open spec fn renamed_bytes(raw: Seq<u8>, name: Seq<char>) -> Seq<u8> {
    seq![encode_utf8(name).len() as u8, raw[1]] + padded_name(name) + raw.subrange(44, 64)
}

/// The bytes of an entry with another size of the file.
pub open spec fn resized_bytes(big_endian: bool, raw: Seq<u8>, size: u32) -> Seq<u8> {
    raw.take(48) + u32_bytes(big_endian, size) + raw.skip(52)
}

/// A character that no name may hold.
pub open spec fn is_bad_char(c: char) -> bool {
    c == '\0' || c > '\u{7f}'
}

/// The first character from `i` on that no name may hold.
pub open spec fn first_bad_char(name: Seq<char>, i: int) -> Option<char>
    decreases name.len() - i,
{
    if i < 0 || i >= name.len() {
        None
    } else if is_bad_char(name[i]) {
        Some(name[i])
    } else {
        first_bad_char(name, i + 1)
    }
}

/// Names have 1 to 42 bytes, all of them ASCII and none zero.
pub open spec fn validate_name(name: Seq<char>) -> Result<(), ErrView> {
    let n = encode_utf8(name).len();
    if n > MAX_FILENAME_LEN {
        Err(ErrView::FilenameTooLong(n, MAX_FILENAME_LEN as nat))
    } else if name.len() == 0 {
        Err(ErrView::FilenameTooLong(0, MAX_FILENAME_LEN as nat))
    } else {
        match first_bad_char(name, 0) {
            Some(c) => Err(ErrView::InvalidFilenameChar(c)),
            None => Ok(()),
        }
    }
}

/// The first entry with that name.
pub open spec fn find_entry(entries: Seq<DirentView>, name: Seq<char>) -> Option<DirentView>
    decreases entries.len(),
{
    if entries.len() == 0 {
        None
    } else if same_name(entries[0].filename(), name) {
        Some(entries[0])
    } else {
        find_entry(entries.drop_first(), name)
    }
}

/// The part of `data` that goes into its `i`-th cluster, filled up with zeros.
pub open spec fn chunk(data: Seq<u8>, size: nat, i: int) -> Seq<u8> {
    Seq::new(
        size,
        |k: int|
            if i * size + k < data.len() {
                data[i * size + k]
            } else {
                0u8
            },
    )
}

/// A cluster full of end markers.
pub open spec fn blank(size: nat) -> Seq<u8> {
    Seq::new(size, |i: int| 0xFFu8)
}

/// Number of clusters that `len` bytes need; an empty file has one as well.
pub open spec fn clusters_needed(len: nat, cluster_size: nat) -> nat {
    if len == 0 {
        1
    } else {
        ((len + cluster_size - 1) / cluster_size as int) as nat
    }
}

/// How many clusters are in which state.
#[verifier::ext_equal]
pub struct Tally {
    pub free: nat,
    pub used: nat,
    pub bad: nat,
}

/// The bytes of a device, and the volume on it.
#[verifier::ext_equal]
pub struct Disk {
    pub geo: Geometry,
    pub bytes: Seq<u8>,
    /// The number of bytes the device can hold.
    pub capacity: nat,
}

impl Disk {
    // -----------------------------------------------------------------------
    // Bytes
    // -----------------------------------------------------------------------

    /// Whether whole sectors around the range are on the device.
    pub open spec fn readable(self, pos: nat, len: nat) -> bool {
        sector_ceil((self.geo.base + pos + len) as int) <= self.bytes.len()
    }

    /// `len` bytes of the volume from `pos` on. The device is read in whole sectors.
    pub open spec fn read(self, pos: nat, len: nat) -> Result<Seq<u8>, ErrView> {
        let start = self.geo.base + pos;
        if self.readable(pos, len) {
            Ok(self.bytes.subrange(start as int, (start + len) as int))
        } else {
            Err(ErrView::Io(IoKind::UnexpectedEof))
        }
    }

    /// The disk after `data` has been written at `pos`. The device is written in whole
    /// sectors: what does not fill its sectors is put into sectors read before.
    pub open spec fn write(self, pos: nat, data: Seq<u8>) -> Result<Disk, ErrView> {
        let start = self.geo.base + pos;
        let after = Disk { bytes: splice(self.bytes, start, data), ..self };
        if start % 512 == 0 && data.len() % 512 == 0 {
            if start + data.len() <= self.capacity {
                Ok(after)
            } else {
                Err(ErrView::Io(IoKind::OutOfSpace))
            }
        } else if self.readable(pos, data.len()) {
            Ok(after)
        } else {
            Err(ErrView::Io(IoKind::UnexpectedEof))
        }
    }

    // -----------------------------------------------------------------------
    // File allocation table
    // -----------------------------------------------------------------------

    pub open spec fn read_fat(self, cluster: u32) -> Result<FatEntry, ErrView> {
        match self.read(self.geo.fat_pos(cluster), self.geo.fat_type.width()) {
            Ok(b) => Ok(decode_fat(self.geo.fat_type, self.geo.big_endian, b)),
            Err(e) => Err(e),
        }
    }

    pub open spec fn write_fat(self, cluster: u32, entry: FatEntry) -> Result<Disk, ErrView> {
        self.write(
            self.geo.fat_pos(cluster),
            encode_fat(self.geo.fat_type, self.geo.big_endian, entry),
        )
    }

    /// The clusters of the chain that starts at `cluster`, if it has at most `fuel` of them.
    /// A chain ends with an end marker and leads through clusters of the volume only.
    pub open spec fn chain_from(self, cluster: u32, fuel: nat) -> Result<Seq<u32>, ErrView>
        decreases fuel,
    {
        if fuel == 0 {
            Err(ErrView::CorruptChain(cluster))
        } else {
            match self.read_fat(cluster) {
                Err(e) => Err(e),
                Ok(FatEntry::EndOfChain) => Ok(seq![cluster]),
                Ok(FatEntry::Next(next)) => if self.geo.in_range(next) {
                    match self.chain_from(next, (fuel - 1) as nat) {
                        Ok(rest) => Ok(seq![cluster] + rest),
                        Err(e) => Err(e),
                    }
                } else {
                    Err(ErrView::CorruptChain(cluster))
                },
                Ok(_) => Err(ErrView::CorruptChain(cluster)),
            }
        }
    }

    /// The clusters of the chain that starts at `cluster`. A chain with more clusters than
    /// the volume has leads in a circle.
    pub open spec fn chain(self, cluster: u32) -> Result<Seq<u32>, ErrView> {
        self.chain_from(cluster, (self.geo.total_clusters + 1) as nat)
    }

    /// The first `count` free clusters from `cluster` on; fewer if there are not as many.
    pub open spec fn free_from(self, cluster: int, count: nat) -> Result<Seq<u32>, ErrView>
        decreases self.geo.total_clusters + 1 - cluster,
    {
        if count == 0 || cluster > self.geo.total_clusters || cluster < 0 {
            Ok(seq![])
        } else {
            match self.read_fat(cluster as u32) {
                Err(e) => Err(e),
                Ok(FatEntry::Free) => match self.free_from(cluster + 1, (count - 1) as nat) {
                    Ok(rest) => Ok(seq![cluster as u32] + rest),
                    Err(e) => Err(e),
                },
                Ok(_) => self.free_from(cluster + 1, count),
            }
        }
    }

    /// Takes the first free cluster and makes it a chain of its own.
    pub open spec fn allocate_cluster(self) -> (Disk, Result<u32, ErrView>) {
        match self.free_from(FIRST_CLUSTER as int, 1) {
            Err(e) => (self, Err(e)),
            Ok(list) => if list.len() == 0 {
                (self, Err(ErrView::DiskFull))
            } else {
                match self.write_fat(list[0], FatEntry::EndOfChain) {
                    Err(e) => (self, Err(e)),
                    Ok(d) => (d, Ok(list[0])),
                }
            },
        }
    }

    /// Makes the clusters from the `i`-th of `list` on a chain.
    pub open spec fn link(self, list: Seq<u32>, i: int) -> (Disk, Result<(), ErrView>)
        decreases list.len() - i,
    {
        if i < 0 || i >= list.len() {
            (self, Ok(()))
        } else {
            let entry = if i + 1 < list.len() {
                FatEntry::Next(list[i + 1])
            } else {
                FatEntry::EndOfChain
            };
            match self.write_fat(list[i], entry) {
                Err(e) => (self, Err(e)),
                Ok(d) => d.link(list, i + 1),
            }
        }
    }

    /// Takes the first `count` free clusters and chains them. Gives the first of them.
    pub open spec fn allocate_chain(self, count: nat) -> (Disk, Result<u32, ErrView>) {
        if count == 0 {
            (self, Err(ErrView::DiskFull))
        } else {
            match self.free_from(FIRST_CLUSTER as int, count) {
                Err(e) => (self, Err(e)),
                Ok(list) => if list.len() < count {
                    (self, Err(ErrView::DiskFull))
                } else {
                    match self.link(list, 0) {
                        (d, Ok(_)) => (d, Ok(list[0])),
                        (d, Err(e)) => (d, Err(e)),
                    }
                },
            }
        }
    }

    /// Frees the clusters from the `i`-th of `list` on.
    pub open spec fn free_all(self, list: Seq<u32>, i: int) -> (Disk, Result<(), ErrView>)
        decreases list.len() - i,
    {
        if i < 0 || i >= list.len() {
            (self, Ok(()))
        } else {
            match self.write_fat(list[i], FatEntry::Free) {
                Err(e) => (self, Err(e)),
                Ok(d) => d.free_all(list, i + 1),
            }
        }
    }

    /// Frees the chain that starts at `cluster`.
    pub open spec fn free_chain(self, cluster: u32) -> (Disk, Result<(), ErrView>) {
        match self.chain(cluster) {
            Err(e) => (self, Err(e)),
            Ok(list) => self.free_all(list, 0),
        }
    }

    /// The states of the clusters from `cluster` on.
    pub open spec fn tally_from(self, cluster: int) -> Result<Tally, ErrView>
        decreases self.geo.total_clusters + 1 - cluster,
    {
        if cluster > self.geo.total_clusters || cluster < 0 {
            Ok(Tally { free: 0, used: 0, bad: 0 })
        } else {
            match self.read_fat(cluster as u32) {
                Err(e) => Err(e),
                Ok(entry) => match self.tally_from(cluster + 1) {
                    Err(e) => Err(e),
                    Ok(t) => Ok(
                        match entry {
                            FatEntry::Free => Tally { free: t.free + 1, ..t },
                            FatEntry::Bad => Tally { bad: t.bad + 1, ..t },
                            _ => Tally { used: t.used + 1, ..t },
                        },
                    ),
                },
            }
        }
    }

    // -----------------------------------------------------------------------
    // Clusters
    // -----------------------------------------------------------------------

    /// Offset of a cluster of the volume.
    pub open spec fn cluster_offset(self, cluster: u32) -> Result<nat, ErrView> {
        if self.geo.in_range(cluster) {
            Ok(self.geo.cluster_pos(cluster))
        } else {
            Err(ErrView::ClusterOutOfRange(cluster, self.geo.total_clusters))
        }
    }

    pub open spec fn read_cluster(self, cluster: u32) -> Result<Seq<u8>, ErrView> {
        match self.cluster_offset(cluster) {
            Err(e) => Err(e),
            Ok(pos) => self.read(pos, self.geo.cluster_size()),
        }
    }

    pub open spec fn write_cluster(self, cluster: u32, data: Seq<u8>) -> Result<Disk, ErrView> {
        match self.cluster_offset(cluster) {
            Err(e) => Err(e),
            Ok(pos) => self.write(pos, data),
        }
    }

    /// The first `size` bytes of the clusters from the `i`-th of `chain` on. At least one
    /// cluster is read.
    pub open spec fn read_data(self, chain: Seq<u32>, i: int, size: nat) -> Result<
        Seq<u8>,
        ErrView,
    >
        decreases chain.len() - i,
    {
        if i < 0 || i >= chain.len() {
            Ok(seq![])
        } else {
            let n = if size < self.geo.cluster_size() { size } else { self.geo.cluster_size() };
            match self.read_cluster(chain[i]) {
                Err(e) => Err(e),
                Ok(b) => if size == n {
                    Ok(b.take(n as int))
                } else {
                    match self.read_data(chain, i + 1, (size - n) as nat) {
                        Err(e) => Err(e),
                        Ok(rest) => Ok(b.take(n as int) + rest),
                    }
                },
            }
        }
    }

    /// Writes `data` into the clusters of `chain`, from the `i`-th cluster on. Clusters
    /// that lie behind the end of the data are left alone.
    pub open spec fn write_data(self, chain: Seq<u32>, data: Seq<u8>, i: int) -> (
        Disk,
        Result<(), ErrView>,
    )
        decreases chain.len() - i,
    {
        if i < 0 || i >= chain.len() || i * self.geo.cluster_size() >= data.len() {
            (self, Ok(()))
        } else {
            match self.write_cluster(chain[i], chunk(data, self.geo.cluster_size(), i)) {
                Err(e) => (self, Err(e)),
                Ok(d) => d.write_data(chain, data, i + 1),
            }
        }
    }

    // -----------------------------------------------------------------------
    // Directories
    // -----------------------------------------------------------------------

    /// `len` bytes of the `j`-th slot in the `i`-th cluster of a directory.
    pub open spec fn slot(self, chain: Seq<u32>, i: int, j: int, len: nat) -> Result<
        Seq<u8>,
        ErrView,
    > {
        match self.cluster_offset(chain[i]) {
            Err(e) => Err(e),
            Ok(pos) => self.read((pos + j * DIRENT_SIZE) as nat, len),
        }
    }

    /// The directory entry that is stored at `pos`.
    pub open spec fn dirent_at(self, pos: nat) -> Result<DirentView, ErrView> {
        match self.read(pos, DIRENT_SIZE as nat) {
            Err(e) => Err(e),
            Ok(raw) => Ok(parse_dirent(self.geo.big_endian, raw)),
        }
    }

    /// The entries from a slot on, up to the end marker, without those that are deleted.
    pub open spec fn entries_from(self, chain: Seq<u32>, i: int, j: int) -> Result<
        Seq<DirentView>,
        ErrView,
    >
        decreases chain.len() - i, self.geo.slots() - j,
    {
        if i < 0 || i >= chain.len() {
            Ok(seq![])
        } else if j < 0 || j >= self.geo.slots() {
            self.entries_from(chain, i + 1, 0)
        } else {
            match self.slot(chain, i, j, DIRENT_SIZE as nat) {
                Err(e) => Err(e),
                Ok(raw) => if is_end_marker(raw[0]) {
                    Ok(seq![])
                } else {
                    match self.entries_from(chain, i, j + 1) {
                        Err(e) => Err(e),
                        Ok(rest) => if raw[0] == DIRENT_DELETED {
                            Ok(rest)
                        } else {
                            Ok(seq![parse_dirent(self.geo.big_endian, raw)] + rest)
                        },
                    }
                },
            }
        }
    }

    /// The entries of the directory that starts at `cluster`.
    pub open spec fn entries(self, cluster: u32) -> Result<Seq<DirentView>, ErrView> {
        match self.chain(cluster) {
            Err(e) => Err(e),
            Ok(chain) => self.entries_from(chain, 0, 0),
        }
    }

    /// The first slot from `(i, j)` on that holds an entry of that name, other than the
    /// slot `skip`.
    pub open spec fn find_slot(
        self,
        chain: Seq<u32>,
        name: Seq<char>,
        skip: Option<(int, int)>,
        i: int,
        j: int,
    ) -> Result<Option<(int, int)>, ErrView>
        decreases chain.len() - i, self.geo.slots() - j,
    {
        if i < 0 || i >= chain.len() {
            Ok(None)
        } else if j < 0 || j >= self.geo.slots() {
            self.find_slot(chain, name, skip, i + 1, 0)
        } else {
            match self.slot(chain, i, j, DIRENT_SIZE as nat) {
                Err(e) => Err(e),
                Ok(raw) => {
                    let entry = parse_dirent(self.geo.big_endian, raw);
                    if is_end_marker(raw[0]) {
                        Ok(None)
                    } else if raw[0] != DIRENT_DELETED && same_name(entry.filename(), name) && skip
                        != Some((i, j)) {
                        Ok(Some((i, j)))
                    } else {
                        self.find_slot(chain, name, skip, i, j + 1)
                    }
                },
            }
        }
    }

    /// The first slot from `(i, j)` on that a new entry can go into: one behind the end of
    /// the directory or one whose entry is deleted.
    pub open spec fn vacant_slot(self, chain: Seq<u32>, i: int, j: int) -> Result<
        Option<(int, int)>,
        ErrView,
    >
        decreases chain.len() - i, self.geo.slots() - j,
    {
        if i < 0 || i >= chain.len() {
            Ok(None)
        } else if j < 0 || j >= self.geo.slots() {
            self.vacant_slot(chain, i + 1, 0)
        } else {
            match self.slot(chain, i, j, 1) {
                Err(e) => Err(e),
                Ok(b) => if is_end_marker(b[0]) || b[0] == DIRENT_DELETED {
                    Ok(Some((i, j)))
                } else {
                    self.vacant_slot(chain, i, j + 1)
                },
            }
        }
    }

    /// Writes an entry into the `j`-th slot of a cluster of the volume. If the entry took the
    /// place of the end marker, the next slot of the cluster becomes the end marker.
    pub open spec fn fill_slot(self, cluster: u32, j: int, at_end: bool, entry: DirentView) -> (
        Disk,
        Result<(), ErrView>,
    ) {
        let pos = (self.geo.cluster_pos(cluster) + j * DIRENT_SIZE) as nat;
        match self.write(pos, dirent_bytes(self.geo.big_endian, entry)) {
            Err(e) => (self, Err(e)),
            Ok(d) => if at_end && j + 1 < self.geo.slots() {
                match d.write(pos + DIRENT_SIZE as nat, seq![DIRENT_END]) {
                    Err(e) => (d, Err(e)),
                    Ok(d2) => (d2, Ok(())),
                }
            } else {
                (d, Ok(()))
            },
        }
    }

    /// Writes an entry of the file allocation table if the device takes it.
    pub open spec fn try_write_fat(self, cluster: u32, entry: FatEntry) -> Disk {
        match self.write_fat(cluster, entry) {
            Ok(d) => d,
            Err(_) => self,
        }
    }

    /// Puts an entry into the fresh cluster that becomes the last one of a directory.
    pub open spec fn fill_new_cluster(self, last: u32, fresh: u32, entry: DirentView) -> (
        Disk,
        Result<(), ErrView>,
    ) {
        match self.write_fat(last, FatEntry::Next(fresh)) {
            Err(e) => (self, Err(e)),
            Ok(d1) => match d1.write_cluster(
                fresh,
                blank(self.geo.cluster_size()),
            ) {
                Err(e) => (d1, Err(e)),
                Ok(d2) => d2.fill_slot(fresh, 0, true, entry),
            },
        }
    }

    /// Makes a directory one cluster longer and puts an entry into the new cluster. On
    /// failure the directory is given its old end back, and the cluster is freed.
    pub open spec fn expand_directory(self, chain: Seq<u32>, entry: DirentView) -> (
        Disk,
        Result<(), ErrView>,
    ) {
        match self.allocate_cluster() {
            (d, Err(e)) => (d, Err(e)),
            (d, Ok(fresh)) => match d.fill_new_cluster(chain.last(), fresh, entry) {
                (d2, Ok(_)) => (d2, Ok(())),
                (d2, Err(e)) => (
                    d2.try_write_fat(chain.last(), FatEntry::EndOfChain).try_write_fat(
                        fresh,
                        FatEntry::Free,
                    ),
                    Err(e),
                ),
            },
        }
    }

    /// Adds an entry to the directory that starts at `cluster`.
    pub open spec fn add_entry(self, cluster: u32, entry: DirentView) -> (
        Disk,
        Result<(), ErrView>,
    ) {
        match self.chain(cluster) {
            Err(e) => (self, Err(e)),
            Ok(chain) => match self.vacant_slot(chain, 0, 0) {
                Err(e) => (self, Err(e)),
                Ok(Some((i, j))) => self.fill_slot(
                    chain[i],
                    j,
                    self.slot(chain, i, j, 1)->Ok_0[0] != DIRENT_DELETED,
                    entry,
                ),
                Ok(None) => self.expand_directory(chain, entry),
            },
        }
    }

    // -----------------------------------------------------------------------
    // Paths
    // -----------------------------------------------------------------------

    /// The entry that the components from the `i`-th on lead to from a directory.
    pub open spec fn resolve_from(self, cluster: u32, names: Seq<Seq<char>>, i: int) -> Result<
        DirentView,
        ErrView,
    >
        decreases names.len() - i,
    {
        if i < 0 || i >= names.len() {
            Ok(root_entry())
        } else {
            match self.entries(cluster) {
                Err(e) => Err(e),
                Ok(entries) => match find_entry(entries, names[i]) {
                    None => Err(ErrView::FileNotFound(names[i])),
                    Some(entry) => if i + 1 == names.len() {
                        Ok(entry)
                    } else if entry.is_directory() {
                        self.resolve_from(entry.first_cluster, names, i + 1)
                    } else {
                        Err(ErrView::NotADirectory(names[i]))
                    },
                },
            }
        }
    }

    /// The entry that a path leads to.
    pub open spec fn resolve(self, path: Seq<char>) -> Result<DirentView, ErrView> {
        self.resolve_from(FIRST_CLUSTER, parts(path), 0)
    }

    // -----------------------------------------------------------------------
    // Files
    // -----------------------------------------------------------------------

    /// The contents of a file.
    pub open spec fn read_file(self, entry: DirentView) -> Result<Seq<u8>, ErrView> {
        if entry.is_directory() {
            Err(ErrView::IsADirectory(entry.filename()))
        } else {
            match self.chain(entry.first_cluster) {
                Err(e) => Err(e),
                Ok(chain) => self.read_data(chain, 0, entry.file_size as nat),
            }
        }
    }

    /// At most `len` bytes of a file from `offset` on; fewer where the file ends.
    pub open spec fn read_range(self, entry: DirentView, offset: nat, len: nat) -> Result<
        Seq<u8>,
        ErrView,
    > {
        if entry.is_directory() {
            Err(ErrView::IsADirectory(entry.filename()))
        } else {
            match self.chain(entry.first_cluster) {
                Err(e) => Err(e),
                Ok(chain) => if offset >= entry.file_size || len == 0 {
                    Ok(seq![])
                } else {
                    let rest = (entry.file_size - offset) as nat;
                    let n = if len < rest { len } else { rest };
                    let size = self.geo.cluster_size();
                    let skip = offset % size;
                    match self.read_data(chain, (offset / size) as int, skip + n) {
                        Err(e) => Err(e),
                        Ok(b) => if b.len() <= skip {
                            Ok(seq![])
                        } else {
                            Ok(b.skip(skip as int))
                        },
                    }
                },
            }
        }
    }

    /// The contents of the file that a path leads to.
    pub open spec fn read_path(self, path: Seq<char>) -> Result<Seq<u8>, ErrView> {
        match self.resolve(path) {
            Err(e) => Err(e),
            Ok(entry) => self.read_file(entry),
        }
    }

    /// The directory that a new entry at `path` goes into.
    pub open spec fn parent_for(self, path: Seq<char>) -> Result<DirentView, ErrView> {
        match validate_name(name_of(path)) {
            Err(e) => Err(e),
            Ok(_) => match self.resolve(parent_of(path)) {
                Err(e) => Err(e),
                Ok(parent) => if parent.is_directory() {
                    Ok(parent)
                } else {
                    Err(ErrView::NotADirectory(parent_of(path)))
                },
            },
        }
    }

    /// Creates a file.
    pub open spec fn create_file(self, path: Seq<char>, data: Seq<u8>, now: Stamp) -> (
        Disk,
        Result<(), ErrView>,
    ) {
        match self.parent_for(path) {
            Err(e) => (self, Err(e)),
            Ok(parent) => match self.allocate_chain(
                clusters_needed(data.len(), self.geo.cluster_size()),
            ) {
                (d, Err(e)) => (d, Err(e)),
                (d, Ok(first)) => match d.chain(first) {
                    Err(e) => (d, Err(e)),
                    Ok(chain) => match d.write_data(chain, data, 0) {
                        (d2, Err(e)) => (d2, Err(e)),
                        (d2, Ok(_)) => d2.add_entry(
                            parent.first_cluster,
                            new_entry(
                                name_of(path),
                                FileAttributes::ARCHIVE,
                                first,
                                (data.len() % 0x1_0000_0000) as u32,
                                now,
                            ),
                        ),
                    },
                },
            },
        }
    }

    /// Fills a fresh cluster with end markers and enters it in a directory.
    pub open spec fn enter_directory(
        self,
        parent: u32,
        name: Seq<char>,
        fresh: u32,
        now: Stamp,
    ) -> (Disk, Result<(), ErrView>) {
        match self.write_cluster(fresh, blank(self.geo.cluster_size())) {
            Err(e) => (self, Err(e)),
            Ok(d) => d.add_entry(parent, new_entry(name, FileAttributes::DIRECTORY, fresh, 0, now)),
        }
    }

    /// Creates a directory. On failure the cluster taken for it is freed.
    pub open spec fn create_directory(self, path: Seq<char>, now: Stamp) -> (
        Disk,
        Result<(), ErrView>,
    ) {
        match self.parent_for(path) {
            Err(e) => (self, Err(e)),
            Ok(parent) => match self.entries(parent.first_cluster) {
                Err(e) => (self, Err(e)),
                Ok(entries) => if find_entry(entries, name_of(path)) is Some {
                    (self, Err(ErrView::FileExists(path)))
                } else {
                    match self.allocate_cluster() {
                        (d, Err(e)) => (d, Err(e)),
                        (d, Ok(fresh)) => match d.enter_directory(
                            parent.first_cluster,
                            name_of(path),
                            fresh,
                            now,
                        ) {
                            (d2, Ok(_)) => (d2, Ok(())),
                            (d2, Err(e)) => (d2.try_write_fat(fresh, FatEntry::Free), Err(e)),
                        },
                    }
                },
            },
        }
    }

    /// Marks the first entry of that name in a directory as deleted.
    pub open spec fn delete_entry(self, cluster: u32, name: Seq<char>) -> (
        Disk,
        Result<(), ErrView>,
    ) {
        match self.chain(cluster) {
            Err(e) => (self, Err(e)),
            Ok(chain) => match self.find_slot(chain, name, None, 0, 0) {
                Err(e) => (self, Err(e)),
                Ok(None) => (self, Err(ErrView::FileNotFound(name))),
                Ok(Some((i, j))) => match self.write(
                    (self.geo.cluster_pos(chain[i]) + j * DIRENT_SIZE) as nat,
                    seq![DIRENT_DELETED],
                ) {
                    Err(e) => (self, Err(e)),
                    Ok(d) => (d, Ok(())),
                },
            },
        }
    }

    /// Deletes a file or an empty directory.
    pub open spec fn delete(self, path: Seq<char>) -> (Disk, Result<(), ErrView>) {
        match self.resolve(parent_of(path)) {
            Err(e) => (self, Err(e)),
            Ok(parent) => match self.resolve(path) {
                Err(e) => (self, Err(e)),
                Ok(target) => {
                    let listing = self.entries(target.first_cluster);
                    if target.is_directory() && listing is Err {
                        (self, Err(listing->Err_0))
                    } else if target.is_directory() && listing->Ok_0.len() > 0 {
                        (self, Err(ErrView::DirectoryNotEmpty(path)))
                    } else {
                        match self.free_chain(target.first_cluster) {
                            (d, Err(e)) => (d, Err(e)),
                            (d, Ok(_)) => d.delete_entry(parent.first_cluster, name_of(path)),
                        }
                    }
                },
            },
        }
    }

    /// Sets the size in the first entry of that name in a directory.
    pub open spec fn resize_entry(self, cluster: u32, name: Seq<char>, size: u32) -> (
        Disk,
        Result<(), ErrView>,
    ) {
        match self.chain(cluster) {
            Err(e) => (self, Err(e)),
            Ok(chain) => match self.find_slot(chain, name, None, 0, 0) {
                Err(e) => (self, Err(e)),
                Ok(None) => (self, Err(ErrView::FileNotFound(name))),
                Ok(Some((i, j))) => match self.write(
                    (self.geo.cluster_pos(chain[i]) + j * DIRENT_SIZE) as nat,
                    resized_bytes(
                        self.geo.big_endian,
                        self.slot(chain, i, j, DIRENT_SIZE as nat)->Ok_0,
                        size,
                    ),
                ) {
                    Err(e) => (self, Err(e)),
                    Ok(d) => (d, Ok(())),
                },
            },
        }
    }

    /// A chain of `count` clusters, at least one, out of `chain`: clusters are added at its
    /// end, or those at its end are freed.
    pub open spec fn fit_chain(self, chain: Seq<u32>, count: nat) -> (Disk, Result<
        Seq<u32>,
        ErrView,
    >) {
        if count > chain.len() {
            match self.allocate_chain((count - chain.len()) as nat) {
                (d, Err(e)) => (d, Err(e)),
                (d, Ok(more)) => match d.write_fat(chain.last(), FatEntry::Next(more)) {
                    Err(e) => (d, Err(e)),
                    Ok(d2) => (d2, d2.chain(chain[0])),
                },
            }
        } else if count < chain.len() {
            match self.write_fat(chain[count - 1], FatEntry::EndOfChain) {
                Err(e) => (self, Err(e)),
                Ok(d) => match d.free_all(chain.skip(count as int), 0) {
                    (d2, Err(e)) => (d2, Err(e)),
                    (d2, Ok(_)) => (d2, Ok(chain.take(count as int))),
                },
            }
        } else {
            (self, Ok(chain))
        }
    }

    /// Replaces the contents of a file. Its clusters are used again; as many as needed are
    /// added or freed.
    pub open spec fn rewrite_file(self, path: Seq<char>, data: Seq<u8>) -> (Disk, Result<
        (),
        ErrView,
    >) {
        match self.resolve(parent_of(path)) {
            Err(e) => (self, Err(e)),
            Ok(parent) => match self.resolve(path) {
                Err(e) => (self, Err(e)),
                Ok(target) => if target.is_directory() {
                    (self, Err(ErrView::IsADirectory(path)))
                } else {
                    match self.chain(target.first_cluster) {
                        Err(e) => (self, Err(e)),
                        Ok(chain) => match self.fit_chain(
                            chain,
                            clusters_needed(data.len(), self.geo.cluster_size()),
                        ) {
                            (d, Err(e)) => (d, Err(e)),
                            (d, Ok(list)) => match d.write_data(list, data, 0) {
                                (d2, Err(e)) => (d2, Err(e)),
                                (d2, Ok(_)) => d2.resize_entry(
                                    parent.first_cluster,
                                    name_of(path),
                                    (data.len() % 0x1_0000_0000) as u32,
                                ),
                            },
                        },
                    }
                },
            },
        }
    }

    /// Gives a file or directory another name in the same directory.
    pub open spec fn rename(self, path: Seq<char>, name: Seq<char>) -> (Disk, Result<(), ErrView>) {
        match validate_name(name) {
            Err(e) => (self, Err(e)),
            Ok(_) => match self.resolve(parent_of(path)) {
                Err(e) => (self, Err(e)),
                Ok(parent) => match self.chain(parent.first_cluster) {
                    Err(e) => (self, Err(e)),
                    Ok(chain) => self.rename_in(chain, name_of(path), name),
                },
            },
        }
    }

    /// Gives the first entry called `from` another name, unless another entry has it.
    pub open spec fn rename_in(self, chain: Seq<u32>, from: Seq<char>, to: Seq<char>) -> (
        Disk,
        Result<(), ErrView>,
    ) {
        match self.find_slot(chain, from, None, 0, 0) {
            Err(e) => (self, Err(e)),
            Ok(None) => (self, Err(ErrView::FileNotFound(from))),
            Ok(Some((i, j))) => match self.find_slot(chain, to, Some((i, j)), 0, 0) {
                Err(e) => (self, Err(e)),
                Ok(Some(_)) => (self, Err(ErrView::FileExists(to))),
                Ok(None) => match self.write(
                    (self.geo.cluster_pos(chain[i]) + j * DIRENT_SIZE) as nat,
                    renamed_bytes(self.slot(chain, i, j, DIRENT_SIZE as nat)->Ok_0, to),
                ) {
                    Err(e) => (self, Err(e)),
                    Ok(d) => (d, Ok(())),
                },
            },
        }
    }
}

} // verus!
