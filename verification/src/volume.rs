//! A mounted volume: opening it, and its sectors, clusters and file allocation table.

use vstd::prelude::*;
use crate::bytes::{get_u16, get_u32, put_u16, put_u32, spec_u16, spec_u32};
use crate::device::{splice, Device, DeviceState, MAX_DEVICE_SIZE};
use crate::disk::{encode_fat, page_ceil, sector_ceil, Disk, Geometry};
use crate::error::{device_fault, ErrView, FatxError, IoKind, Result};
use crate::types::{
    is_valid_magic, valid_magic, FatEntry, FatType, Superblock, FAT16_BAD, FAT16_EOC, FAT16_FREE,
    FAT32_BAD, FAT32_EOC, FAT32_FREE, FATX_MAGIC, FIRST_CLUSTER, SECTOR_SIZE, SUPERBLOCK_SIZE,
    XTAF_MAGIC,
};

verus! {

// ---------------------------------------------------------------------------
// Results
// ---------------------------------------------------------------------------

/// The operation stopped because the device failed for reasons of its own.
pub open spec fn fault<T>(r: Result<T>) -> bool {
    r matches Err(e) && e@ == device_fault()
}

/// A result, its error taken by its view.
pub open spec fn outcome<T>(r: Result<T>) -> core::result::Result<T, ErrView> {
    match r {
        Ok(v) => Ok(v),
        Err(e) => Err(e@),
    }
}

/// A result that holds a vector, taken by its view.
pub open spec fn seq_outcome<T>(r: Result<Vec<T>>) -> core::result::Result<Seq<T>, ErrView> {
    match r {
        Ok(v) => Ok(v@),
        Err(e) => Err(e@),
    }
}

/// `prefix` put in front of a result.
pub open spec fn prepend<T>(
    prefix: Seq<T>,
    r: core::result::Result<Seq<T>, ErrView>,
) -> core::result::Result<Seq<T>, ErrView> {
    match r {
        Ok(s) => Ok(prefix + s),
        Err(e) => Err(e),
    }
}

// ---------------------------------------------------------------------------
// Opening
// ---------------------------------------------------------------------------

/// The number of sectors in a cluster is a power of two from 1 to 128.
pub open spec fn valid_cluster_sectors(n: u32) -> bool {
    n == 1 || n == 2 || n == 4 || n == 8 || n == 16 || n == 32 || n == 64 || n == 128
}

/// The shape of a volume of `size` bytes.
///
/// The table has 32-bit entries when the volume less its superblock and 260 more sectors
/// has room for 65525 clusters. An XTAF volume counts its clusters as if it had no table, a
/// FATX volume sets the table's entries aside. The table is rounded up to 4 KiB, and the
/// clusters follow it.
pub open spec fn geometry(base: nat, big_endian: bool, size: int, sectors_per_cluster: u32) -> Geometry {
    let cluster_size = sectors_per_cluster * SECTOR_SIZE;
    let total_sectors = size / 512 - 8;
    let estimate = (if total_sectors > 260 { total_sectors - 260 } else { 0 })
        / sectors_per_cluster as int;
    let fat_type = if estimate >= 65525 { FatType::Fat32 } else { FatType::Fat16 };
    let clusters = if big_endian {
        (size - SUPERBLOCK_SIZE) / cluster_size
    } else {
        (total_sectors * SECTOR_SIZE) / (cluster_size + fat_type.width())
    };
    let total_clusters = (clusters % 0x1_0000_0000) as u32;
    Geometry {
        base,
        big_endian,
        fat_type,
        total_clusters,
        sectors_per_cluster,
        data_offset: (SUPERBLOCK_SIZE + page_ceil(total_clusters * fat_type.width())) as nat,
    }
}

/// What opening a volume finds.
#[verifier::ext_equal]
pub struct Mounted {
    pub magic: Seq<u8>,
    pub volume_id: u32,
    pub fat_copies: u16,
    /// The size of the volume in bytes.
    pub size: nat,
    pub geo: Geometry,
}

/// What opening the volume at `offset` finds; a size of 0 stands for the rest of the device.
pub open spec fn mount(dev: DeviceState, offset: u64, size: u64) -> core::result::Result<
    Mounted,
    ErrView,
> {
    let rest = if dev.bytes.len() > offset { dev.bytes.len() - offset } else { 0 };
    let size = if size == 0 { rest } else { size as int };
    let sb = dev.bytes.subrange(offset as int, offset + SUPERBLOCK_SIZE);
    let magic = sb.subrange(0, 4);
    let big_endian = magic == XTAF_MAGIC@;
    let sectors = spec_u32(big_endian, sb.subrange(8, 12));
    if size < SUPERBLOCK_SIZE + SECTOR_SIZE {
        Err(ErrView::VolumeTooSmall)
    } else if offset + SUPERBLOCK_SIZE > dev.bytes.len() {
        Err(ErrView::Io(IoKind::UnexpectedEof))
    } else if !valid_magic(magic) {
        Err(ErrView::BadMagic(magic))
    } else if !valid_cluster_sectors(sectors) {
        Err(ErrView::BadSectorsPerCluster(sectors))
    } else {
        Ok(
            Mounted {
                magic,
                volume_id: spec_u32(big_endian, sb.subrange(4, 8)),
                fat_copies: spec_u16(big_endian, sb.subrange(12, 14)),
                size: size as nat,
                geo: geometry(offset as nat, big_endian, size, sectors),
            },
        )
    }
}

/// A device, and where a volume lies on it.
pub struct Placement<D: Device> {
    /// The device the volume is on.
    inner: D,
    /// Offset of the volume on the device.
    partition_offset: u64,
    /// Offset of the file allocation table from the start of the volume.
    fat_offset: u64,
    /// Size of the file allocation table, rounded up to 4 KiB.
    fat_size: u64,
    /// Offset of the first cluster from the start of the volume.
    data_offset: u64,
    /// Size of the volume in bytes.
    partition_size: u64,
    /// Whether numbers are stored with the most significant byte first.
    big_endian: bool,
}

/// A mounted volume.
pub struct FatxVolume<D: Device> {
    /// The device and the volume's place on it.
    pub place: Placement<D>,
    /// The superblock.
    pub superblock: Superblock,
    /// Width of the entries of the file allocation table.
    pub fat_type: FatType,
    /// Number of clusters.
    pub total_clusters: u32,
}

/// Positions inside a volume stay below this number.
pub const POSITION_LIMIT: u64 = 0x2_0000_0000_0000;

/// The longest range that is read or written at once.
pub const TRANSFER_LIMIT: usize = 0x1_0000;

impl<D: Device> FatxVolume<D> {
    /// The bytes of the device, and the volume on it.
    pub closed spec fn view(&self) -> Disk {
        Disk {
            geo: Geometry {
                base: self.place.partition_offset as nat,
                big_endian: self.place.big_endian,
                fat_type: self.fat_type,
                total_clusters: self.total_clusters,
                sectors_per_cluster: self.superblock.sectors_per_cluster,
                data_offset: self.place.data_offset as nat,
            },
            bytes: self.place.inner.state().bytes,
            capacity: self.place.inner.state().capacity,
        }
    }

    /// The device never fails for reasons of its own.
    pub closed spec fn reliable(&self) -> bool {
        self.place.inner.state().reliable
    }

    /// The bytes of the device that are known to be on the medium.
    pub closed spec fn stored(&self) -> Seq<u8> {
        self.place.inner.state().stored
    }

    /// The superblock.
    pub closed spec fn header(&self) -> Superblock {
        self.superblock
    }

    /// The size of the volume in bytes.
    pub closed spec fn volume_size(&self) -> u64 {
        self.place.partition_size
    }

    /// The fields show the volume, fit each other, and the device is in order.
    pub open spec fn wf(&self) -> bool {
        &&& self.superblock == self.header()
        &&& self.fat_type == self@.geo.fat_type
        &&& self.total_clusters == self@.geo.total_clusters
        &&& self.sound()
    }

    /// The fields fit each other, and the device is in order.
    pub closed spec fn sound(&self) -> bool {
        &&& self.place.inner.inv()
        &&& self@.geo.valid()
        &&& self.place.fat_offset == SUPERBLOCK_SIZE
        &&& self.place.data_offset == SUPERBLOCK_SIZE + self.place.fat_size
    }

    /// The volume is in order and has kept its place, its shape and its limits.
    pub open spec fn keeps(&self, before: &Self) -> bool {
        &&& self.wf()
        &&& self@.geo == before@.geo
        &&& self@.capacity == before@.capacity
        &&& self.reliable() == before.reliable()
        &&& self.volume_size() == before.volume_size()
        &&& self.header() == before.header()
    }

    /// The volume is in order and nothing on it has changed.
    pub open spec fn same_as(&self, before: &Self) -> bool {
        self.same_contents(before) && self.stored() == before.stored()
    }

    /// The volume is in order and nothing on it has changed, though more of it may have reached
    /// the medium.
    pub open spec fn same_contents(&self, before: &Self) -> bool {
        self.keeps(before) && self@ == before@
    }

    /// A volume in order is of a bounded size.
    pub proof fn lemma_shape(&self)
        requires
            self.wf(),
        ensures
            self@.geo.valid(),
            self@.geo.sectors_per_cluster == self.header().sectors_per_cluster,
            self@.bytes.len() <= self@.capacity <= MAX_DEVICE_SIZE,
            self@.geo.cluster_size() <= TRANSFER_LIMIT,
            forall|c: u32|
                self@.geo.in_range(c) ==> #[trigger] self@.geo.cluster_pos(c)
                    + self@.geo.cluster_size() < POSITION_LIMIT,
    {
        self.place.inner.lemma_bounds();
        let geo = self@.geo;
        assert forall|c: u32| geo.in_range(c) implies #[trigger] geo.cluster_pos(c)
            + geo.cluster_size() < POSITION_LIMIT by {
            let size = geo.cluster_size() as int;
            let n = c - 1;
            assert(n * size <= 0xFFFF_FFFF * 0x1_0000) by (nonlinear_arith)
                requires
                    0 <= n <= 0xFFFF_FFFF,
                    0 <= size <= 0x1_0000,
            ;
        }
    }

    /// Opens the volume at `partition_offset` of a device. A `partition_size` of 0 stands for
    /// the rest of the device.
    pub fn open(inner: D, partition_offset: u64, partition_size: u64) -> (r: Result<Self>)
        requires
            inner.inv(),
        ensures
            fault(r) ==> !inner.state().reliable,
            !fault(r) ==> match (r, mount(inner.state(), partition_offset, partition_size)) {
                (Ok(v), Ok(m)) => {
                    &&& v.wf()
                    &&& v@ == (Disk {
                        geo: m.geo,
                        bytes: inner.state().bytes,
                        capacity: inner.state().capacity,
                    })
                    &&& v.reliable() == inner.state().reliable
                    &&& v.stored() == inner.state().stored
                    &&& v.volume_size() == m.size
                    &&& v.header().magic@ == m.magic
                    &&& v.header().volume_id == m.volume_id
                    &&& v.header().sectors_per_cluster == m.geo.sectors_per_cluster
                    &&& v.header().fat_copies == m.fat_copies
                },
                (Err(e), Err(x)) => e@ == x,
                _ => false,
            },
    {
        let mut inner = inner;
        proof {
            inner.lemma_bounds();
        }
        let partition_size: u64 = if partition_size == 0 {
            match inner.size() {
                Ok(end) => if end > partition_offset { end - partition_offset } else { 0 },
                Err(e) => return Err(FatxError::Io(e)),
            }
        } else {
            partition_size
        };
        if partition_size < SUPERBLOCK_SIZE + SECTOR_SIZE {
            return Err(FatxError::VolumeTooSmall);
        }
        let sb = match inner.read_exact_at(partition_offset, SUPERBLOCK_SIZE as usize) {
            Ok(sb) => sb,
            Err(e) => return Err(FatxError::Io(e)),
        };
        let magic: [u8; 4] = [sb[0], sb[1], sb[2], sb[3]];
        assert(magic@ =~= sb@.subrange(0, 4));
        if !is_valid_magic(&magic) {
            return Err(FatxError::BadMagic(magic));
        }
        let big_endian = magic[0] == XTAF_MAGIC[0];
        assert(big_endian == (magic@ == XTAF_MAGIC@)) by {
            assert(magic@[0] == magic[0]);
            assert(FATX_MAGIC@[0] == 0x46 && XTAF_MAGIC@[0] == 0x58);
        }
        let buf = sb.as_slice();
        let volume_id = get_u32(big_endian, buf, 4);
        let sectors_per_cluster = get_u32(big_endian, buf, 8);
        let fat_copies = get_u16(big_endian, buf, 12);
        let n = sectors_per_cluster;
        if !(n == 1 || n == 2 || n == 4 || n == 8 || n == 16 || n == 32 || n == 64 || n == 128) {
            return Err(FatxError::BadSectorsPerCluster(sectors_per_cluster));
        }
        let superblock = Superblock { magic, volume_id, sectors_per_cluster, fat_copies };
        let cluster_size = superblock.cluster_size();
        let total_sectors: u64 = partition_size / SECTOR_SIZE - SUPERBLOCK_SIZE / SECTOR_SIZE;
        let estimate: u64 = (if total_sectors > 260 { total_sectors - 260 } else { 0 })
            / sectors_per_cluster as u64;
        let fat_type = if estimate >= 65_525 { FatType::Fat32 } else { FatType::Fat16 };
        let entry_size = fat_type.entry_size();
        let clusters: u64 = if big_endian {
            (partition_size - SUPERBLOCK_SIZE) / cluster_size
        } else {
            total_sectors * SECTOR_SIZE / (cluster_size + entry_size)
        };
        let total_clusters: u32 = (clusters % 0x1_0000_0000) as u32;
        assert(total_clusters * entry_size <= 0xFFFF_FFFF * 4) by (nonlinear_arith)
            requires
                0 <= total_clusters <= 0xFFFF_FFFF,
                0 <= entry_size <= 4,
        ;
        let raw_fat_size: u64 = total_clusters as u64 * entry_size;
        let fat_size: u64 = (raw_fat_size + 0xFFF) / 0x1000 * 0x1000;
        Ok(
            FatxVolume {
                place: Placement {
                    inner,
                    partition_offset,
                    fat_offset: SUPERBLOCK_SIZE,
                    fat_size,
                    data_offset: SUPERBLOCK_SIZE + fat_size,
                    partition_size,
                    big_endian,
                },
                superblock,
                fat_type,
                total_clusters,
            },
        )
    }

    // -----------------------------------------------------------------------
    // Sectors
    // -----------------------------------------------------------------------

    /// Reads `len` bytes from `pos` on, in whole sectors.
    pub(crate) fn read_at(&mut self, pos: u64, len: usize) -> (r: Result<Vec<u8>>)
        requires
            old(self).wf(),
            old(self)@.geo.base + pos <= u64::MAX,
            0 < len <= TRANSFER_LIMIT,
        ensures
            final(self).same_as(old(self)),
            fault(r) ==> !old(self).reliable(),
            !fault(r) ==> seq_outcome(r) == old(self)@.read(pos as nat, len as nat),
    {
        let abs: u64 = self.place.partition_offset + pos;
        let skip: usize = (abs % SECTOR_SIZE) as usize;
        let start: u64 = abs - skip as u64;
        let aligned_len: usize = (skip + len + 511) / 512 * 512;
        assert(start + aligned_len == sector_ceil(abs + len));
        let data = match self.place.inner.read_exact_at(start, aligned_len) {
            Ok(data) => data,
            Err(e) => return Err(FatxError::Io(e)),
        };
        let mut out: Vec<u8> = Vec::new();
        out.extend_from_slice(&data[skip..skip + len]);
        proof {
            let bytes = old(self)@.bytes;
            assert(data@.subrange(skip as int, skip + len) =~= bytes.subrange(
                abs as int,
                abs + len,
            ));
            assert(out@ =~= data@.subrange(skip as int, skip + len));
        }
        Ok(out)
    }

    /// Writes `buf` at `pos`, in whole sectors.
    pub(crate) fn write_at(&mut self, pos: u64, buf: &[u8]) -> (r: Result<()>)
        requires
            old(self).wf(),
            old(self)@.geo.base + pos <= u64::MAX,
            0 < buf.len() <= TRANSFER_LIMIT,
        ensures
            final(self).keeps(old(self)),
            fault(r) ==> !old(self).reliable(),
            !fault(r) ==> match (r, old(self)@.write(pos as nat, buf@)) {
                (Ok(_), Ok(d)) => final(self)@ == d,
                (Err(e), Err(x)) => e@ == x && final(self)@ == old(self)@,
                _ => false,
            },
    {
        let abs: u64 = self.place.partition_offset + pos;
        let skip: usize = (abs % SECTOR_SIZE) as usize;
        let start: u64 = abs - skip as u64;
        let aligned_len: usize = (skip + buf.len() + 511) / 512 * 512;
        assert(start + aligned_len == sector_ceil(abs + buf.len()));
        if skip == 0 && buf.len() % 512 == 0 {
            match self.place.inner.write_all_at(abs, buf) {
                Ok(_) => Ok(()),
                Err(e) => Err(FatxError::Io(e)),
            }
        } else {
            let data = match self.place.inner.read_exact_at(start, aligned_len) {
                Ok(data) => data,
                Err(e) => return Err(FatxError::Io(e)),
            };
            let mut sectors: Vec<u8> = Vec::new();
            sectors.extend_from_slice(&data[0..skip]);
            sectors.extend_from_slice(buf);
            sectors.extend_from_slice(&data[skip + buf.len()..aligned_len]);
            proof {
                let bytes = old(self)@.bytes;
                self.place.inner.lemma_bounds();
                assert(sectors@.len() == aligned_len);
                assert(splice(bytes, start as nat, sectors@) =~= splice(
                    bytes,
                    abs as nat,
                    buf@,
                ));
            }
            match self.place.inner.write_all_at(start, sectors.as_slice()) {
                Ok(_) => Ok(()),
                Err(e) => Err(FatxError::Io(e)),
            }
        }
    }

    /// Hands everything written so far to the medium.
    pub fn flush(&mut self) -> (r: Result<()>)
        requires
            old(self).wf(),
        ensures
            final(self).same_contents(old(self)),
            r is Ok ==> final(self).stored() == final(self)@.bytes,
            r is Err ==> fault(r) && !old(self).reliable(),
    {
        match self.place.inner.flush() {
            Ok(_) => Ok(()),
            Err(e) => Err(FatxError::Io(e)),
        }
    }

    /// Gives the device back.
    pub fn into_device(self) -> (d: D)
        requires
            self.wf(),
        ensures
            d.inv(),
            d.state() == (DeviceState {
                bytes: self@.bytes,
                capacity: self@.capacity,
                reliable: self.reliable(),
                stored: self.stored(),
            }),
    {
        self.place.inner
    }

    // -----------------------------------------------------------------------
    // Clusters
    // -----------------------------------------------------------------------

    /// The size of a cluster in bytes.
    pub fn cluster_size(&self) -> (n: usize)
        requires
            self.wf(),
        ensures
            n == self@.geo.cluster_size(),
            512 <= n <= TRANSFER_LIMIT,
    {
        self.superblock.cluster_size() as usize
    }

    /// The number of clusters.
    pub fn cluster_count(&self) -> (n: u32)
        ensures
            n == self@.geo.total_clusters,
    {
        self.total_clusters
    }

    /// Whether numbers are stored with the most significant byte first.
    pub fn is_big_endian(&self) -> (b: bool)
        ensures
            b == self@.geo.big_endian,
    {
        self.place.big_endian
    }

    /// The size of the volume in bytes.
    pub fn size(&self) -> (n: u64)
        ensures
            n == self.volume_size(),
    {
        self.place.partition_size
    }

    /// Offset of a cluster from the start of the volume.
    pub(crate) fn cluster_offset(&self, cluster: u32) -> (r: Result<u64>)
        requires
            self.wf(),
        ensures
            match (r, self@.cluster_offset(cluster)) {
                (Ok(pos), Ok(p)) => pos == p && pos + self@.geo.cluster_size() < POSITION_LIMIT,
                (Err(e), Err(x)) => e@ == x,
                _ => false,
            },
    {
        if cluster < FIRST_CLUSTER || cluster > self.total_clusters {
            return Err(FatxError::ClusterOutOfRange(cluster, self.total_clusters));
        }
        proof {
            self.lemma_shape();
            assert(self@.geo.in_range(cluster));
            assert(self@.geo.cluster_pos(cluster) < POSITION_LIMIT);
        }
        let size = self.superblock.cluster_size();
        assert((cluster - FIRST_CLUSTER) * size <= 0xFFFF_FFFF * 0x1_0000) by (nonlinear_arith)
            requires
                1 <= cluster <= 0xFFFF_FFFF,
                FIRST_CLUSTER == 1,
                0 <= size <= 0x1_0000,
        ;
        Ok(self.place.data_offset + (cluster - FIRST_CLUSTER) as u64 * size)
    }

    /// Reads a cluster into `buf`, which has the size of a cluster.
    pub fn read_cluster(&mut self, cluster: u32, buf: &mut [u8]) -> (r: Result<()>)
        requires
            old(self).wf(),
            old(buf)@.len() == old(self)@.geo.cluster_size(),
        ensures
            final(self).same_as(old(self)),
            fault(r) ==> !old(self).reliable(),
            !fault(r) ==> match (r, old(self)@.read_cluster(cluster)) {
                (Ok(_), Ok(b)) => final(buf)@ == b,
                (Err(e), Err(x)) => e@ == x && final(buf)@ == old(buf)@,
                _ => false,
            },
    {
        match self.cluster_bytes(cluster) {
            Ok(data) => {
                let n: usize = data.len();
                for i in 0..n
                    invariant
                        n == data.len() == buf.len(),
                        forall|k: int| 0 <= k < i ==> buf@[k] == data@[k],
                {
                    buf[i] = data[i];
                }
                assert(buf@ =~= data@);
                Ok(())
            },
            Err(e) => Err(e),
        }
    }

    /// The bytes of a cluster.
    pub(crate) fn cluster_bytes(&mut self, cluster: u32) -> (r: Result<Vec<u8>>)
        requires
            old(self).wf(),
        ensures
            final(self).same_as(old(self)),
            fault(r) ==> !old(self).reliable(),
            !fault(r) ==> seq_outcome(r) == old(self)@.read_cluster(cluster),
            r matches Ok(b) ==> b@.len() == old(self)@.geo.cluster_size(),
    {
        let pos = match self.cluster_offset(cluster) {
            Ok(pos) => pos,
            Err(e) => return Err(e),
        };
        proof {
            self.lemma_shape();
        }
        let size: usize = self.superblock.cluster_size() as usize;
        self.read_at(pos, size)
    }

    /// Writes a cluster.
    pub fn write_cluster(&mut self, cluster: u32, buf: &[u8]) -> (r: Result<()>)
        requires
            old(self).wf(),
            buf@.len() == old(self)@.geo.cluster_size(),
        ensures
            final(self).keeps(old(self)),
            fault(r) ==> !old(self).reliable(),
            !fault(r) ==> match (r, old(self)@.write_cluster(cluster, buf@)) {
                (Ok(_), Ok(d)) => final(self)@ == d,
                (Err(e), Err(x)) => e@ == x && final(self)@ == old(self)@,
                _ => false,
            },
    {
        let pos = match self.cluster_offset(cluster) {
            Ok(pos) => pos,
            Err(e) => return Err(e),
        };
        proof {
            self.lemma_shape();
        }
        self.write_at(pos, buf)
    }

    // -----------------------------------------------------------------------
    // File allocation table
    // -----------------------------------------------------------------------

    /// Reads the entry of a cluster in the file allocation table.
    pub fn read_fat_entry(&mut self, cluster: u32) -> (r: Result<FatEntry>)
        requires
            old(self).wf(),
        ensures
            final(self).same_as(old(self)),
            fault(r) ==> !old(self).reliable(),
            !fault(r) ==> outcome(r) == old(self)@.read_fat(cluster),
    {
        let size = self.fat_type.entry_size();
        let pos: u64 = self.place.fat_offset + cluster as u64 * size;
        let raw = match self.read_at(pos, size as usize) {
            Ok(raw) => raw,
            Err(e) => return Err(e),
        };
        assert(raw@.subrange(0, raw@.len() as int) =~= raw@);
        Ok(
            match self.fat_type {
                FatType::Fat16 => {
                    let v = get_u16(self.place.big_endian, raw.as_slice(), 0);
                    if v == FAT16_FREE {
                        FatEntry::Free
                    } else if v == FAT16_BAD {
                        FatEntry::Bad
                    } else if v >= FAT16_EOC {
                        FatEntry::EndOfChain
                    } else {
                        FatEntry::Next(v as u32)
                    }
                },
                FatType::Fat32 => {
                    let v = get_u32(self.place.big_endian, raw.as_slice(), 0);
                    if v == FAT32_FREE {
                        FatEntry::Free
                    } else if v == FAT32_BAD {
                        FatEntry::Bad
                    } else if v >= FAT32_EOC {
                        FatEntry::EndOfChain
                    } else {
                        FatEntry::Next(v)
                    }
                },
            },
        )
    }

    /// Writes the entry of a cluster in the file allocation table.
    pub fn write_fat_entry(&mut self, cluster: u32, entry: FatEntry) -> (r: Result<()>)
        requires
            old(self).wf(),
        ensures
            final(self).keeps(old(self)),
            fault(r) ==> !old(self).reliable(),
            !fault(r) ==> match (r, old(self)@.write_fat(cluster, entry)) {
                (Ok(_), Ok(d)) => final(self)@ == d,
                (Err(e), Err(x)) => e@ == x && final(self)@ == old(self)@,
                _ => false,
            },
    {
        let size = self.fat_type.entry_size();
        let pos: u64 = self.place.fat_offset + cluster as u64 * size;
        let mut raw: Vec<u8> = Vec::new();
        match self.fat_type {
            FatType::Fat16 => {
                let v: u16 = match entry {
                    FatEntry::Free => FAT16_FREE,
                    FatEntry::EndOfChain => FAT16_EOC,
                    FatEntry::Bad => FAT16_BAD,
                    FatEntry::Next(c) => (c % 0x1_0000) as u16,
                };
                put_u16(self.place.big_endian, v, &mut raw);
            },
            FatType::Fat32 => {
                let v: u32 = match entry {
                    FatEntry::Free => FAT32_FREE,
                    FatEntry::EndOfChain => FAT32_EOC,
                    FatEntry::Bad => FAT32_BAD,
                    FatEntry::Next(c) => c,
                };
                put_u32(self.place.big_endian, v, &mut raw);
            },
        }
        assert(raw@ =~= encode_fat(self@.geo.fat_type, self@.geo.big_endian, entry));
        self.write_at(pos, raw.as_slice())
    }
}

} // verus!
